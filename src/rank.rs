use vstd::prelude::*;

use itertools::Itertools;

use crate::freq::{entries_view, entry_before, entry_le, FreqEntry};
use crate::text::{text_cmp, text_lt};

verus! {

/// An entry at its place in a report: its position (from zero) and its rank,
/// which entries of equal frequency share.
pub struct RankedEntry {
    pub idx: usize,
    pub rank: usize,
    pub freq_entry: FreqEntry,
}

/// The views of the entries of a ranking, in order.
pub open spec fn ranked_view(s: Seq<RankedEntry>) -> Seq<(Seq<char>, nat)> {
    s.map_values(|e: RankedEntry| e.freq_entry@)
}

/// Competition rank at position `i` of a sorted sequence: 1 at the start, the
/// same as the entry before where the frequency is the same, one more where not.
pub open spec fn rank_at(s: Seq<(Seq<char>, nat)>, i: int) -> nat
    decreases i,
{
    if i <= 0 {
        1
    } else if s[i].1 == s[i - 1].1 {
        rank_at(s, i - 1)
    } else {
        rank_at(s, i - 1) + 1
    }
}

/// Whether a ranking lists `entries` in report order with their positions and ranks.
pub open spec fn is_ranking_of(r: Seq<RankedEntry>, entries: Seq<(Seq<char>, nat)>) -> bool {
    &&& ranked_view(r).to_multiset() == entries.to_multiset()
    &&& forall|i: int, j: int|
        0 <= i < j < r.len() ==> entry_le(#[trigger] r[i].freq_entry, #[trigger] r[j].freq_entry)
    &&& forall|i: int|
        0 <= i < r.len() ==> #[trigger] r[i].idx == i && r[i].rank == rank_at(ranked_view(r), i)
}

proof fn lemma_rank_bound(s: Seq<(Seq<char>, nat)>, i: int)
    requires
        0 <= i,
    ensures
        1 <= rank_at(s, i) <= i + 1,
    decreases i,
{
    if i > 0 {
        lemma_rank_bound(s, i - 1);
    }
}

/// Ranks in a ranking go up in steps: the first is 1; an entry whose frequency
/// equals the one before shares its rank, and any other has the rank after it.
pub proof fn lemma_rank_steps(r: Seq<RankedEntry>, entries: Seq<(Seq<char>, nat)>, i: int)
    requires
        is_ranking_of(r, entries),
        0 <= i < r.len(),
    ensures
        i == 0 ==> r[i].rank == 1,
        i > 0 && r[i].freq_entry.freq == r[i - 1].freq_entry.freq ==> r[i].rank == r[i - 1].rank,
        i > 0 && r[i].freq_entry.freq != r[i - 1].freq_entry.freq ==> r[i].freq_entry.freq
            < r[i - 1].freq_entry.freq && r[i].rank == r[i - 1].rank + 1,
{
    assert(r[i].idx == i);
    if i > 0 {
        assert(r[i - 1].idx == i - 1);
        assert(entry_le(r[i - 1].freq_entry, r[i].freq_entry));
    }
}

/// In a ranking, entries of equal frequency stand in lexical order of their values.
pub proof fn lemma_ties_in_lexical_order(
    r: Seq<RankedEntry>,
    entries: Seq<(Seq<char>, nat)>,
    i: int,
    j: int,
)
    requires
        is_ranking_of(r, entries),
        0 <= i < j < r.len(),
        r[i].freq_entry.freq == r[j].freq_entry.freq,
    ensures
        text_lt(r[i].freq_entry.value@, r[j].freq_entry.value@) || r[i].freq_entry.value@
            == r[j].freq_entry.value@,
{
    assert(entry_le(r[i].freq_entry, r[j].freq_entry));
}

/// Compares two entries in report order.
pub fn entry_cmp(a: &FreqEntry, b: &FreqEntry) -> (r: core::cmp::Ordering)
    ensures
        (r == core::cmp::Ordering::Less) == entry_before(*a, *b),
        (r == core::cmp::Ordering::Equal) == (a@ == b@),
        (r == core::cmp::Ordering::Greater) == entry_before(*b, *a),
{
    if a.freq > b.freq {
        core::cmp::Ordering::Less
    } else if a.freq < b.freq {
        core::cmp::Ordering::Greater
    } else {
        text_cmp(a.value.as_str(), b.value.as_str())
    }
}

/// Relies on itertools::Itertools::sorted_by, which sorts the items with
/// `slice::sort_by` under the comparison given; `entry_cmp` is a total order
/// (`lemma_entry_order_total`), so the result holds the same items, in report order.
#[verifier::external_body]
fn sort_entries(entries: Vec<FreqEntry>) -> (r: Vec<FreqEntry>)
    ensures
        entries_view(r@).to_multiset() == entries_view(entries@).to_multiset(),
        forall|i: int, j: int| 0 <= i < j < r@.len() ==> entry_le(r@[i], r@[j]),
{
    entries.into_iter().sorted_by(|a, b| entry_cmp(a, b)).collect()
}

impl RankedEntry {
    pub fn new(idx: usize, rank: usize, freq_entry: FreqEntry) -> (r: RankedEntry)
        ensures
            r == (RankedEntry { idx, rank, freq_entry }),
    {
        RankedEntry { idx, rank, freq_entry }
    }

    /// Sorts entries into report order and numbers them, with competition
    /// ranks.
    pub fn from_freq_entries(freq_entries: Vec<FreqEntry>) -> (r: Vec<RankedEntry>)
        ensures
            is_ranking_of(r@, entries_view(freq_entries@)),
            r@.len() == freq_entries@.len(),
    {
        let ghost input = entries_view(freq_entries@);
        let sorted = sort_entries(freq_entries);
        let ghost s = entries_view(sorted@);
        proof {
            broadcast use vstd::seq_lib::group_to_multiset_ensures;

            assert(s.to_multiset().len() == input.to_multiset().len());
        }
        let n = sorted.len();
        let mut out: Vec<RankedEntry> = Vec::new();
        let mut i: usize = 0;
        let mut rank: usize = 1;
        let mut last_freq: u64 = 0;
        while i < n
            invariant
                n == s.len() == sorted@.len(),
                s == entries_view(sorted@),
                i <= n,
                out@.len() == i,
                ranked_view(out@) == s.subrange(0, i as int),
                forall|k: int|
                    0 <= k < i ==> #[trigger] out@[k].idx == k && out@[k].rank == rank_at(s, k),
                i == 0 ==> rank == 1,
                i > 0 ==> rank == rank_at(s, i - 1) && last_freq == s[i - 1].1,
            decreases n - i,
        {
            let e = FreqEntry::new(sorted[i].freq, sorted[i].value.clone());
            assert(e@ == s[i as int]);
            proof {
                lemma_rank_bound(s, i as int);
            }
            assert(sorted@[i as int]@ == s[i as int]);
            assert(e.freq == s[i as int].1);
            if i > 0 && e.freq != last_freq {
                rank = rank + 1;
            }
            assert(rank == rank_at(s, i as int));
            last_freq = e.freq;
            out.push(RankedEntry::new(i, rank, e));
            assert(out@[i as int].idx == i && out@[i as int].rank == rank);
            assert(ranked_view(out@) =~= s.subrange(0, i + 1));
            i = i + 1;
        }
        assert(s.subrange(0, n as int) =~= s);
        assert forall|a: int, b: int| 0 <= a < b < out@.len() implies entry_le(
            #[trigger] out@[a].freq_entry,
            #[trigger] out@[b].freq_entry,
        ) by {
            assert(out@[a].freq_entry@ == s[a]);
            assert(out@[b].freq_entry@ == s[b]);
            assert(entry_le(sorted@[a], sorted@[b]));
            assert(sorted@[a]@ == s[a]);
            assert(sorted@[b]@ == s[b]);
        }
        assert(ranked_view(out@) == s);
        out
    }
}

} // verus!
