use vstd::prelude::*;

use crate::counter::{
    count_of, distinct_values, lemma_tally_distinct, lemma_tally_permutation, lemma_tally_remove,
    tally, add_count, Counter,
};
use crate::rank::{ranked_view, RankedEntry};
use crate::text::{copy_range, trim, trim_bounds};

verus! {

/// The glyph between the artists and the album of an entry.
pub const ENTRY_SEPARATOR: char = '–';

/// The glyph between the artists of a collaboration.
pub const ARTIST_JOINER: char = '/';

/// Index of the first `c` in `s`, if any.
pub open spec fn first_index(s: Seq<char>, c: char) -> Option<int>
    decreases s.len(),
{
    if s.len() == 0 {
        None
    } else {
        match first_index(s.drop_last(), c) {
            Some(p) => Some(p),
            None => if s.last() == c {
                Some(s.len() - 1)
            } else {
                None
            },
        }
    }
}

/// The pieces of `s` between occurrences of `c` (one piece where there is none).
pub open spec fn split_on(s: Seq<char>, c: char) -> Seq<Seq<char>>
    decreases s.len(),
{
    if s.len() == 0 {
        seq![Seq::empty()]
    } else if s.last() == c {
        split_on(s.drop_last(), c).push(Seq::empty())
    } else {
        let p = split_on(s.drop_last(), c);
        p.update(p.len() - 1, p.last().push(s.last()))
    }
}

/// The artists credited by an entry: the part before the first separator,
/// cut at each joiner, each name trimmed; none where there is no separator.
pub open spec fn artists_of(s: Seq<char>) -> Option<Seq<Seq<char>>> {
    match first_index(s, ENTRY_SEPARATOR) {
        Some(p) => Some(split_on(s.subrange(0, p), ARTIST_JOINER).map_values(|a: Seq<char>| trim(a))),
        None => None,
    }
}

/// What one entry credits: its whole count to each of its artists.
pub open spec fn credits_of(e: (Seq<char>, nat)) -> Seq<(Seq<char>, nat)> {
    match artists_of(e.0) {
        Some(a) => a.map_values(|x: Seq<char>| (x, e.1)),
        None => Seq::empty(),
    }
}

/// The artist credits of a sequence of entries, in order.
pub open spec fn credits(s: Seq<(Seq<char>, nat)>) -> Seq<(Seq<char>, nat)>
    decreases s.len(),
{
    if s.len() == 0 {
        Seq::empty()
    } else {
        credits(s.drop_last()) + credits_of(s.last())
    }
}

proof fn lemma_first_index_stays(s: Seq<char>, c: char, i: int)
    requires
        0 <= i <= s.len(),
        first_index(s.subrange(0, i), c) is Some,
    ensures
        first_index(s, c) == first_index(s.subrange(0, i), c),
    decreases s.len(),
{
    if i < s.len() {
        assert(s.drop_last().subrange(0, i) =~= s.subrange(0, i));
        lemma_first_index_stays(s.drop_last(), c, i);
    } else {
        assert(s.subrange(0, i) =~= s);
    }
}

proof fn lemma_credits_prefix(s: Seq<(Seq<char>, nat)>, i: int)
    requires
        0 <= i <= s.len(),
    ensures
        credits(s.subrange(0, i)).len() <= credits(s).len(),
        credits(s).subrange(0, credits(s.subrange(0, i)).len() as int) == credits(
            s.subrange(0, i),
        ),
    decreases s.len(),
{
    if i < s.len() {
        assert(s.drop_last().subrange(0, i) =~= s.subrange(0, i));
        lemma_credits_prefix(s.drop_last(), i);
        let a = credits(s.drop_last());
        let b = credits_of(s.last());
        assert((a + b).subrange(0, credits(s.subrange(0, i)).len() as int) =~= a.subrange(
            0,
            credits(s.subrange(0, i)).len() as int,
        ));
    } else {
        assert(s.subrange(0, i) =~= s);
        assert(credits(s).subrange(0, credits(s).len() as int) =~= credits(s));
    }
}

proof fn lemma_credits_concat(s: Seq<(Seq<char>, nat)>, t: Seq<(Seq<char>, nat)>)
    ensures
        credits(s + t) == credits(s) + credits(t),
    decreases t.len(),
{
    if t.len() == 0 {
        assert(s + t =~= s);
        assert(credits(s) + credits(t) =~= credits(s));
    } else {
        assert((s + t).drop_last() =~= s + t.drop_last());
        lemma_credits_concat(s, t.drop_last());
        assert(credits(s + t) =~= credits(s) + credits(t));
    }
}

proof fn lemma_tally_same_suffix(s1: Seq<(Seq<char>, nat)>, s2: Seq<(Seq<char>, nat)>, t: Seq<(Seq<char>, nat)>)
    requires
        tally(s1) == tally(s2),
    ensures
        tally(s1 + t) == tally(s2 + t),
    decreases t.len(),
{
    if t.len() == 0 {
        assert(s1 + t =~= s1);
        assert(s2 + t =~= s2);
    } else {
        assert((s1 + t).drop_last() =~= s1 + t.drop_last());
        assert((s2 + t).drop_last() =~= s2 + t.drop_last());
        lemma_tally_same_suffix(s1, s2, t.drop_last());
    }
}

/// A value that no entry has is not among the totals.
proof fn lemma_tally_absent(s: Seq<(Seq<char>, nat)>, k: Seq<char>)
    requires
        forall|i: int| 0 <= i < s.len() ==> s[i].0 != k,
    ensures
        !tally(s).contains_key(k),
    decreases s.len(),
{
    if s.len() > 0 {
        lemma_tally_absent(s.drop_last(), k);
    }
}

/// The artist totals depend on the album totals alone: two sequences of
/// distinct albums with the same totals credit every artist the same.
pub proof fn lemma_artist_totals_follow_album_totals(
    a: Seq<(Seq<char>, nat)>,
    b: Seq<(Seq<char>, nat)>,
)
    requires
        distinct_values(a),
        distinct_values(b),
        tally(a) == tally(b),
    ensures
        tally(credits(a)) == tally(credits(b)),
    decreases a.len(),
{
    lemma_tally_distinct(a);
    lemma_tally_distinct(b);
    if a.len() == 0 {
        if b.len() > 0 {
            assert(tally(b).contains_key(b[0].0));
        }
    } else {
        let x = a.last();
        let a1 = a.drop_last();
        assert(tally(a).contains_key(a[a.len() - 1].0));
        assert(tally(b).contains_key(x.0));
        let j = choose|j: int| 0 <= j < b.len() && b[j].0 == x.0;
        assert(tally(b).contains_key(b[j].0));
        assert(b[j] == x);
        let b1 = b.remove(j);
        assert(distinct_values(a1)) by {
            assert forall|p: int, q: int| 0 <= p < q < a1.len() implies a1[p].0 != a1[q].0 by {
                assert(a[p].0 != a[q].0);
            }
        }
        assert(distinct_values(b1)) by {
            assert forall|p: int, q: int| 0 <= p < q < b1.len() implies b1[p].0 != b1[q].0 by {
                let p0 = if p < j { p } else { p + 1 };
                let q0 = if q < j { q } else { q + 1 };
                assert(b[p0].0 != b[q0].0);
            }
        }
        assert forall|i: int| 0 <= i < a1.len() implies a1[i].0 != x.0 by {
            assert(a[i].0 != a[a.len() - 1].0);
        }
        assert forall|i: int| 0 <= i < b1.len() implies b1[i].0 != x.0 by {
            let i0 = if i < j { i } else { i + 1 };
            assert(b[i0].0 != b[j].0);
        }
        lemma_tally_absent(a1, x.0);
        lemma_tally_absent(b1, x.0);
        lemma_tally_remove(b, j);
        assert(tally(a1) =~= tally(b1)) by {
            assert forall|k: Seq<char>| #[trigger] tally(a1).contains_key(k) implies tally(
                b1,
            ).contains_key(k) && tally(a1)[k] == tally(b1)[k] by {
                assert(k != x.0);
                assert(add_count(tally(a1), x.0, x.1).contains_key(k));
            }
            assert forall|k: Seq<char>| #[trigger] tally(b1).contains_key(k) implies tally(
                a1,
            ).contains_key(k) by {
                assert(k != x.0);
                assert(add_count(tally(b1), x.0, x.1).contains_key(k));
            }
        }
        lemma_artist_totals_follow_album_totals(a1, b1);
        let p = b.subrange(0, j);
        let q = b.subrange(j + 1, b.len() as int);
        assert(b =~= p + seq![x] + q);
        assert(b1 =~= p + q);
        assert(a =~= a1 + seq![x]);
        assert(credits(seq![x]) =~= credits_of(x)) by {
            let e = Seq::<(Seq<char>, nat)>::empty();
            assert(seq![x].drop_last() =~= e);
            assert(credits(e) == e);
            assert(e + credits_of(x) =~= credits_of(x));
        }
        lemma_credits_concat(p + seq![x], q);
        lemma_credits_concat(p, seq![x]);
        lemma_credits_concat(p, q);
        lemma_credits_concat(a1, seq![x]);
        let cp = credits(p);
        let cx = credits_of(x);
        let cq = credits(q);
        assert(((cp + cx) + cq).to_multiset() =~= ((cp + cq) + cx).to_multiset()) by {
            vstd::seq_lib::lemma_multiset_commutative(cp + cx, cq);
            vstd::seq_lib::lemma_multiset_commutative(cp, cx);
            vstd::seq_lib::lemma_multiset_commutative(cp + cq, cx);
            vstd::seq_lib::lemma_multiset_commutative(cp, cq);
            broadcast use vstd::multiset::group_multiset_axioms;
        }
        lemma_tally_permutation((cp + cx) + cq, (cp + cq) + cx);
        lemma_tally_same_suffix(credits(a1), credits(b1), cx);
    }
}

/// The artists credited by an album entry, or `Err` where it names none.
pub fn get_artists(album_entry: &str) -> (r: Result<Vec<String>, ()>)
    ensures
        match r {
            Ok(v) => artists_of(album_entry@) == Some(v@.map_values(|x: String| x@)),
            Err(()) => artists_of(album_entry@) is None,
        },
{
    let s = album_entry;
    let n = s.unicode_len();
    let mut p: usize = 0;
    assert(s@.subrange(0, 0).len() == 0);
    while p < n && s.get_char(p) != ENTRY_SEPARATOR
        invariant
            p <= n == s@.len(),
            first_index(s@.subrange(0, p as int), ENTRY_SEPARATOR) is None,
        decreases n - p,
    {
        assert(s@.subrange(0, p + 1).drop_last() =~= s@.subrange(0, p as int));
        p = p + 1;
    }
    if p == n {
        assert(s@.subrange(0, p as int) =~= s@);
        return Err(());
    }
    proof {
        assert(s@.subrange(0, p + 1).drop_last() =~= s@.subrange(0, p as int));
        lemma_first_index_stays(s@, ENTRY_SEPARATOR, p + 1);
    }
    let mut out: Vec<String> = Vec::new();
    let ghost mut raw: Seq<Seq<char>> = Seq::empty();
    let mut start: usize = 0;
    let mut i: usize = 0;
    assert(s@.subrange(0, 0) =~= Seq::<char>::empty());
    assert(split_on(Seq::<char>::empty(), ARTIST_JOINER) == seq![Seq::<char>::empty()]);
    while i < p
        invariant
            start <= i <= p < n == s@.len(),
            split_on(s@.subrange(0, i as int), ARTIST_JOINER) == raw.push(
                s@.subrange(start as int, i as int),
            ),
            out@.len() == raw.len(),
            forall|k: int| 0 <= k < raw.len() ==> (#[trigger] out@[k])@ == trim(raw[k]),
        decreases p - i,
    {
        let c = s.get_char(i);
        assert(s@.subrange(0, i + 1).drop_last() =~= s@.subrange(0, i as int));
        if c == ARTIST_JOINER {
            let (a, b) = trim_bounds(s, start, i);
            out.push(copy_range(s, a, b));
            proof {
                raw = raw.push(s@.subrange(start as int, i as int));
            }
            start = i + 1;
            assert(s@.subrange(start as int, i + 1) =~= Seq::<char>::empty());
        } else {
            assert(s@.subrange(start as int, i + 1) =~= s@.subrange(start as int, i as int).push(
                c,
            ));
            assert(raw.push(s@.subrange(start as int, i as int)).update(
                raw.len() as int,
                s@.subrange(start as int, i + 1),
            ) =~= raw.push(s@.subrange(start as int, i + 1)));
        }
        i = i + 1;
    }
    let (a, b) = trim_bounds(s, start, p);
    out.push(copy_range(s, a, b));
    proof {
        raw = raw.push(s@.subrange(start as int, p as int));
        assert(out@.map_values(|x: String| x@) =~= raw.map_values(|a: Seq<char>| trim(a)));
    }
    Ok(out)
}

/// The artist totals of ranked album entries: each album's count goes in full
/// to each of its artists, and albums that name none give nothing. `None`
/// where a total would not fit in 64 bits.
pub fn artist_counter(albums: &Vec<RankedEntry>) -> (r: Option<Counter>)
    ensures
        match r {
            Some(c) => c.wf() && c@ == tally(credits(ranked_view(albums@))) && forall|k: Seq<char>|
                count_of(tally(credits(ranked_view(albums@))), k) <= u64::MAX,
            None => exists|k: Seq<char>| count_of(tally(credits(ranked_view(albums@))), k) > u64::MAX,
        },
{
    let ghost s = ranked_view(albums@);
    let mut c = Counter::new();
    let mut i: usize = 0;
    assert(s.subrange(0, 0) =~= Seq::<(Seq<char>, nat)>::empty());
    while i < albums.len()
        invariant
            i <= albums@.len(),
            s == ranked_view(albums@),
            c.wf(),
            c@ == tally(credits(s.subrange(0, i as int))),
        decreases albums@.len() - i,
    {
        let e = &albums[i].freq_entry;
        let ghost before = credits(s.subrange(0, i as int));
        assert(s.subrange(0, i + 1).drop_last() =~= s.subrange(0, i as int));
        assert(s[i as int] == e@);
        match get_artists(e.value.as_str()) {
            Err(()) => {
                assert(credits(s.subrange(0, i + 1)) =~= before);
            },
            Ok(names) => {
                let ghost mine = credits_of(e@);
                assert(mine.len() == names@.len());
                let mut j: usize = 0;
                assert(before + mine.subrange(0, 0) =~= before);
                while j < names.len()
                    invariant
                        j <= names@.len() == mine.len(),
                        mine == credits_of(e@),
                        artists_of(e.value@) == Some(names@.map_values(|x: String| x@)),
                        e@ == s[i as int],
                        i < albums@.len(),
                        s == ranked_view(albums@),
                        before == credits(s.subrange(0, i as int)),
                        credits(s.subrange(0, i + 1)) == before + mine,
                        c.wf(),
                        c@ == tally(before + mine.subrange(0, j as int)),
                    decreases names@.len() - j,
                {
                    assert(mine[j as int] == (names@[j as int]@, e.freq as nat));
                    assert((before + mine.subrange(0, j + 1)).drop_last() =~= before
                        + mine.subrange(0, j as int));
                    let have = c.count(names[j].as_str());
                    if e.freq > u64::MAX - have {
                        proof {
                            let done = before + mine.subrange(0, j + 1);
                            let full = credits(s);
                            lemma_credits_prefix(s, i + 1);
                            assert(full.subrange(0, done.len() as int) =~= done);
                            crate::counter::lemma_tally_prefix(
                                full,
                                done.len() as int,
                                names@[j as int]@,
                            );
                            assert(s.subrange(0, albums@.len() as int) =~= s);
                        }
                        return None;
                    }
                    c.add(names[j].clone(), e.freq);
                    j = j + 1;
                }
                assert(mine.subrange(0, j as int) =~= mine);
            },
        }
        i = i + 1;
    }
    assert(s.subrange(0, i as int) =~= s);
    proof {
        c.lemma_counts_fit();
    }
    Some(c)
}

} // verus!
