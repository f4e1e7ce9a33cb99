use vstd::prelude::*;

use crate::counter::{lemma_tally_remove, tally};
use crate::freq::{entries_view, FreqEntry};
use crate::line::{classify, LineError, LineView, ParsedLine};
use crate::text::{skip_space_forward, trim};

verus! {

/// What a log holds: the current date, if one was seen, and every entry
/// that came after a date, with that date, in the order they came.
pub type LogState = (Option<Seq<char>>, Seq<(Seq<char>, (Seq<char>, nat))>);

pub open spec fn empty_log() -> LogState {
    (None, Seq::empty())
}

/// The effect of one line on a log: a date line becomes the current date;
/// an entry line is filed under the current date, and dropped if there is none.
pub open spec fn feed(st: LogState, line: LineView) -> LogState {
    match line {
        LineView::Date(d) => (Some(d), st.1),
        LineView::Entry(v, n) => match st.0 {
            Some(d) => (st.0, st.1.push((d, (v, n)))),
            None => st,
        },
    }
}

/// A log fed with `lines`, in order, from empty.
pub open spec fn feed_all(lines: Seq<LineView>) -> LogState
    decreases lines.len(),
{
    if lines.len() == 0 {
        empty_log()
    } else {
        feed(feed_all(lines.drop_last()), lines.last())
    }
}

/// The log that the text lines give, skipping blank ones; or the index of the
/// first line that cannot be read, with why.
pub open spec fn read_lines(lines: Seq<Seq<char>>) -> Result<LogState, (int, LineError)>
    decreases lines.len(),
{
    if lines.len() == 0 {
        Ok(empty_log())
    } else {
        match read_lines(lines.drop_last()) {
            Err(x) => Err(x),
            Ok(st) => {
                let l = lines.last();
                if trim(l).len() == 0 {
                    Ok(st)
                } else {
                    match classify(l) {
                        Err(e) => Err((lines.len() - 1, e)),
                        Ok(v) => Ok(feed(st, v)),
                    }
                }
            },
        }
    }
}

/// The entries filed under `date`, in the order they came.
pub open spec fn bucket(st: LogState, date: Seq<char>) -> Seq<(Seq<char>, nat)> {
    st.1.filter(|x: (Seq<char>, (Seq<char>, nat))| x.0 == date).map_values(
        |x: (Seq<char>, (Seq<char>, nat))| x.1,
    )
}

/// Every entry of the log, whatever its date.
pub open spec fn all_entries(st: LogState) -> Seq<(Seq<char>, nat)> {
    st.1.map_values(|x: (Seq<char>, (Seq<char>, nat))| x.1)
}

proof fn lemma_no_dates_leave_empty(pre: Seq<LineView>)
    requires
        forall|i: int| 0 <= i < pre.len() ==> !(#[trigger] pre[i] is Date),
    ensures
        feed_all(pre) == empty_log(),
    decreases pre.len(),
{
    if pre.len() > 0 {
        lemma_no_dates_leave_empty(pre.drop_last());
        assert(!(pre[pre.len() - 1] is Date));
    }
}

/// Entries that come before the first date line leave no trace: the log is
/// the one that the lines after them give.
pub proof fn lemma_entries_before_first_date_dropped(pre: Seq<LineView>, rest: Seq<LineView>)
    requires
        forall|i: int| 0 <= i < pre.len() ==> !(#[trigger] pre[i] is Date),
    ensures
        feed_all(pre + rest) == feed_all(rest),
    decreases rest.len(),
{
    if rest.len() == 0 {
        assert(pre + rest =~= pre);
        lemma_no_dates_leave_empty(pre);
    } else {
        assert((pre + rest).drop_last() =~= pre + rest.drop_last());
        lemma_entries_before_first_date_dropped(pre, rest.drop_last());
    }
}

/// The album totals of a log do not depend on the order of its dated
/// entries: two logs that hold the same dated entries, each as often, give
/// the same totals.
pub proof fn lemma_album_totals_ignore_order(x: LogState, y: LogState)
    requires
        x.1.to_multiset() == y.1.to_multiset(),
    ensures
        tally(all_entries(x)) == tally(all_entries(y)),
    decreases x.1.len(),
{
    broadcast use vstd::seq_lib::group_to_multiset_ensures;

    let s = x.1;
    let t = y.1;
    if s.len() == 0 {
        assert(t.to_multiset().len() == 0);
        assert(all_entries(x) =~= Seq::<(Seq<char>, nat)>::empty());
        assert(all_entries(y) =~= Seq::<(Seq<char>, nat)>::empty());
    } else {
        let e = s.last();
        assert(s =~= s.drop_last().push(e));
        assert(s.to_multiset().count(e) > 0);
        assert(t.contains(e));
        let j = choose|j: int| 0 <= j < t.len() && t[j] == e;
        assert(s.drop_last().to_multiset() =~= t.remove(j).to_multiset());
        let x1: LogState = (x.0, s.drop_last());
        let y1: LogState = (y.0, t.remove(j));
        lemma_album_totals_ignore_order(x1, y1);
        assert(all_entries(x).drop_last() =~= all_entries(x1));
        assert(all_entries(y).remove(j) =~= all_entries(y1));
        lemma_tally_remove(all_entries(y), j);
    }
}

/// A listening log being built line by line.
pub struct AlbumLog {
    entries: Vec<(String, FreqEntry)>,
    current: Option<String>,
}

impl View for AlbumLog {
    type V = LogState;

    closed spec fn view(&self) -> LogState {
        (
            match self.current {
                Some(d) => Some(d@),
                None => None,
            },
            self.entries@.map_values(|x: (String, FreqEntry)| (x.0@, x.1@)),
        )
    }
}

impl AlbumLog {
    pub fn new() -> (r: AlbumLog)
        ensures
            r@ == empty_log(),
    {
        let r = AlbumLog { entries: Vec::new(), current: None };
        assert(r@.1 =~= Seq::<(Seq<char>, (Seq<char>, nat))>::empty());
        r
    }

    /// Takes in one line.
    pub fn feed_line(&mut self, line: ParsedLine)
        ensures
            final(self)@ == feed(old(self)@, line@),
    {
        match line {
            ParsedLine::Date(date) => {
                self.current = Some(date);
            },
            ParsedLine::Entry(entry) => {
                match &self.current {
                    Some(d) => {
                        let ghost before = self.entries@;
                        let date = d.clone();
                        self.entries.push((date, entry));
                        assert(self.entries@.map_values(|x: (String, FreqEntry)| (x.0@, x.1@))
                            =~= before.map_values(|x: (String, FreqEntry)| (x.0@, x.1@)).push(
                            (d@, entry@),
                        ));
                    },
                    None => {},
                }
            },
        }
    }

    /// Every entry of the log, whatever its date.
    pub fn flattened_album_entries(&self) -> (r: Vec<FreqEntry>)
        ensures
            entries_view(r@) == all_entries(self@),
    {
        let mut r: Vec<FreqEntry> = Vec::new();
        let mut i: usize = 0;
        while i < self.entries.len()
            invariant
                i <= self.entries@.len(),
                r@.len() == i,
                entries_view(r@) == all_entries(self@).subrange(0, i as int),
            decreases self.entries@.len() - i,
        {
            let e = &self.entries[i].1;
            r.push(FreqEntry::new(e.freq, e.value.clone()));
            assert(r@[i as int]@ == self.entries@[i as int].1@);
            assert(entries_view(r@) =~= all_entries(self@).subrange(0, i + 1));
            i = i + 1;
        }
        assert(all_entries(self@).subrange(0, i as int) =~= all_entries(self@));
        r
    }

    /// Builds the log of a whole text, skipping blank lines; fails on the first
    /// line that cannot be read, giving its index.
    pub fn from_lines(lines: &Vec<String>) -> (r: Result<AlbumLog, (usize, LineError)>)
        ensures
            match r {
                Ok(log) => read_lines(lines@.map_values(|l: String| l@)) == Ok::<
                    LogState,
                    (int, LineError),
                >(log@),
                Err((i, e)) => read_lines(lines@.map_values(|l: String| l@)) == Err::<
                    LogState,
                    (int, LineError),
                >((i as int, e)),
            },
    {
        let ghost all = lines@.map_values(|l: String| l@);
        let mut log = AlbumLog::new();
        let mut i: usize = 0;
        assert(all.subrange(0, 0).len() == 0);
        while i < lines.len()
            invariant
                i <= lines@.len(),
                all == lines@.map_values(|l: String| l@),
                read_lines(all.subrange(0, i as int)) == Ok::<LogState, (int, LineError)>(log@),
            decreases lines@.len() - i,
        {
            let line = lines[i].as_str();
            assert(all.subrange(0, i + 1).drop_last() =~= all.subrange(0, i as int));
            assert(all.subrange(0, i + 1).last() == line@);
            let n = line.unicode_len();
            assert(line@.subrange(0, n as int) =~= line@);
            let k = skip_space_forward(line, 0, n);
            if k < n {
                assert(trim(line@).len() > 0) by {
                    assert(line@.subrange(k as int, n as int)[0] == line@[k as int]);
                    crate::text::lemma_trim_end_keeps_start(line@.subrange(k as int, n as int));
                }
                match ParsedLine::from_str(line) {
                    Ok(p) => log.feed_line(p),
                    Err(e) => {
                        proof {
                            lemma_read_error_stays(all, i as int);
                        }
                        return Err((i, e));
                    },
                }
            } else {
                assert(line@.subrange(k as int, n as int).len() == 0);
            }
            i = i + 1;
        }
        assert(all.subrange(0, i as int) =~= all);
        Ok(log)
    }
}

proof fn lemma_read_error_stays(lines: Seq<Seq<char>>, i: int)
    requires
        0 <= i < lines.len(),
        read_lines(lines.subrange(0, i + 1)) is Err,
    ensures
        read_lines(lines) == read_lines(lines.subrange(0, i + 1)),
    decreases lines.len(),
{
    if lines.len() > i + 1 {
        assert(lines.drop_last().subrange(0, i + 1) =~= lines.subrange(0, i + 1));
        lemma_read_error_stays(lines.drop_last(), i);
    } else {
        assert(lines.subrange(0, i + 1) =~= lines);
    }
}

} // verus!
