use vstd::prelude::*;

use crate::artist::{artist_counter, credits};
use crate::counter::{count_of, distinct_values, lemma_tally_permutation, tally, Counter};
use crate::freq::{entries_view, FreqEntry};
use crate::rank::{is_ranking_of, ranked_view, RankedEntry};

verus! {

/// Reordering a sequence whose values are distinct keeps them distinct.
pub proof fn lemma_permutation_keeps_distinct(e: Seq<(Seq<char>, nat)>, f: Seq<(Seq<char>, nat)>)
    requires
        distinct_values(e),
        e.to_multiset() == f.to_multiset(),
    ensures
        distinct_values(f),
{
    broadcast use vstd::seq_lib::group_to_multiset_ensures;

    assert(e.no_duplicates()) by {
        assert forall|i: int, j: int| 0 <= i < e.len() && 0 <= j < e.len() && i != j implies e[i]
            != e[j] by {
            if i < j {
                assert(e[i].0 != e[j].0);
            } else {
                assert(e[j].0 != e[i].0);
            }
        }
    }
    e.lemma_multiset_has_no_duplicates();
    f.lemma_multiset_has_no_duplicates_conv();
    assert forall|i: int, j: int| 0 <= i < j < f.len() implies f[i].0 != f[j].0 by {
        assert(f[i] != f[j]);
        assert(f.contains(f[i]));
        assert(f.contains(f[j]));
        assert(f.to_multiset().count(f[i]) > 0);
        assert(f.to_multiset().count(f[j]) > 0);
        assert(e.to_multiset().count(f[i]) > 0);
        assert(e.to_multiset().count(f[j]) > 0);
        assert(e.contains(f[i]));
        assert(e.contains(f[j]));
        let a = choose|a: int| 0 <= a < e.len() && e[a] == f[i];
        let b = choose|b: int| 0 <= b < e.len() && e[b] == f[j];
        assert(a != b);
        if a < b {
            assert(e[a].0 != e[b].0);
        } else {
            assert(e[b].0 != e[a].0);
        }
    }
}

/// Ranks the totals of a counter.
fn rank_counter(c: Counter) -> (r: Vec<RankedEntry>)
    requires
        c.wf(),
    ensures
        distinct_values(ranked_view(r@)),
        tally(ranked_view(r@)) == c@,
        is_ranking_of(r@, ranked_view(r@)),
{
    let entries = c.to_freq_entries();
    let ghost e = entries_view(entries@);
    let r = RankedEntry::from_freq_entries(entries);
    proof {
        lemma_tally_permutation(ranked_view(r@), e);
        lemma_permutation_keeps_distinct(e, ranked_view(r@));
    }
    r
}

/// The ranking of the totals of a sequence of entries: one ranked entry per
/// distinct value, holding its total. `None` where a total would not fit in
/// 64 bits.
pub fn rank_totals(entries: &Vec<FreqEntry>) -> (r: Option<Vec<RankedEntry>>)
    ensures
        match r {
            Some(v) => {
                &&& distinct_values(ranked_view(v@))
                &&& tally(ranked_view(v@)) == tally(entries_view(entries@))
                &&& forall|k: Seq<char>| count_of(tally(entries_view(entries@)), k) <= u64::MAX
                &&& is_ranking_of(v@, ranked_view(v@))
            },
            None => exists|k: Seq<char>| count_of(tally(entries_view(entries@)), k) > u64::MAX,
        },
{
    match Counter::count_all(entries) {
        Some(c) => Some(rank_counter(c)),
        None => None,
    }
}

/// The ranking of artists by listens: each ranked album credits its total in
/// full to each of its artists. `None` where a total would not fit in 64 bits.
pub fn rank_artists(albums: &Vec<RankedEntry>) -> (r: Option<Vec<RankedEntry>>)
    ensures
        match r {
            Some(v) => {
                &&& distinct_values(ranked_view(v@))
                &&& tally(ranked_view(v@)) == tally(credits(ranked_view(albums@)))
                &&& forall|k: Seq<char>|
                    count_of(tally(credits(ranked_view(albums@))), k) <= u64::MAX
                &&& is_ranking_of(v@, ranked_view(v@))
            },
            None => exists|k: Seq<char>|
                count_of(tally(credits(ranked_view(albums@))), k) > u64::MAX,
        },
{
    match artist_counter(albums) {
        Some(c) => Some(rank_counter(c)),
        None => None,
    }
}

} // verus!
