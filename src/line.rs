use vstd::prelude::*;

use crate::freq::FreqEntry;
use crate::text::{copy_range, skip_space_back, skip_space_forward, trim, trim_bounds, trim_end, trim_start};

verus! {

/// The glyph that opens a date line.
pub const DATE_ARROW: char = '→';

/// Why a line could not be read.
#[derive(Debug, Clone, Copy, PartialEq, Eq, Structural)]
pub enum LineError {
    /// The line is neither a date line nor an entry line.
    Malformed,
    /// The repeat count of an entry line does not fit in 32 bits.
    BadCount,
}

/// One line of a listening log.
pub enum ParsedLine {
    Entry(FreqEntry),
    Date(String),
}

/// What a line reads as, over plain sequences.
pub enum LineView {
    Date(Seq<char>),
    Entry(Seq<char>, nat),
}

impl ParsedLine {
    pub open spec fn view(&self) -> LineView {
        match self {
            ParsedLine::Entry(e) => LineView::Entry(e.value@, e.freq as nat),
            ParsedLine::Date(d) => LineView::Date(d@),
        }
    }
}

pub open spec fn is_digit(c: char) -> bool {
    '0' <= c && c <= '9'
}

/// The label of a date line: white space, the arrow, then the label, whose
/// surrounding white space is dropped and which spans no line break.
pub open spec fn date_label(s: Seq<char>) -> Option<Seq<char>> {
    let t = trim_start(s);
    if t.len() > 0 && t[0] == DATE_ARROW && !trim(t.drop_first()).contains('\n') {
        Some(trim(t.drop_first()))
    } else {
        None
    }
}

/// Start of the run of digits that ends just before index `j` of `t`.
pub open spec fn digit_run_start(t: Seq<char>, j: int) -> int
    decreases j,
{
    if 0 < j && j <= t.len() && is_digit(t[j - 1]) {
        digit_run_start(t, j - 1)
    } else {
        j
    }
}

/// Index of the `(` of a count suffix `(<digits>x)` that closes `t`, where
/// something stands before it.
pub open spec fn suffix_open(t: Seq<char>) -> Option<int> {
    let n = t.len() as int;
    if n >= 4 && t[n - 1] == ')' && t[n - 2] == 'x' {
        let d = digit_run_start(t, n - 2);
        if d < n - 2 && d >= 2 && t[d - 1] == '(' {
            Some(d - 1)
        } else {
            None
        }
    } else {
        None
    }
}

/// The number that a run of decimal digits denotes.
pub open spec fn digits_value(s: Seq<char>) -> nat
    decreases s.len(),
{
    if s.len() == 0 {
        0
    } else {
        digits_value(s.drop_last()) * 10 + (s.last() as u32 - '0' as u32) as nat
    }
}

/// How a line is classified: a date line first; otherwise an entry line,
/// whose count is the suffix `(<digits>x)` if there is one and 1 if not.
pub open spec fn classify(s: Seq<char>) -> Result<LineView, LineError> {
    match date_label(s) {
        Some(l) => Ok(LineView::Date(l)),
        None => {
            let t = trim(s);
            if t.len() == 0 {
                Err(LineError::Malformed)
            } else {
                match suffix_open(t) {
                    Some(p) => {
                        let v = trim_end(t.subrange(0, p));
                        let ds = t.subrange(p + 1, t.len() - 2);
                        if v.contains('\n') {
                            Err(LineError::Malformed)
                        } else if digits_value(ds) > u32::MAX {
                            Err(LineError::BadCount)
                        } else {
                            Ok(LineView::Entry(v, digits_value(ds)))
                        }
                    },
                    None => {
                        if t.contains('\n') {
                            Err(LineError::Malformed)
                        } else {
                            Ok(LineView::Entry(t, 1))
                        }
                    },
                }
            }
        },
    }
}

/// A line that reads as a date line is a date line, whatever else it would
/// read as.
pub proof fn lemma_date_line_first(s: Seq<char>)
    requires
        date_label(s) is Some,
    ensures
        classify(s) == Ok::<LineView, LineError>(LineView::Date(date_label(s)->Some_0)),
{
}

/// An entry line without a count suffix counts once, and its value is the
/// line without the white space around it.
pub proof fn lemma_default_count(s: Seq<char>)
    requires
        date_label(s) is None,
        trim(s).len() > 0,
        suffix_open(trim(s)) is None,
        !trim(s).contains('\n'),
    ensures
        classify(s) == Ok::<LineView, LineError>(LineView::Entry(trim(s), 1)),
{
}

proof fn lemma_digits_prefix(s: Seq<char>, k: int)
    requires
        0 <= k <= s.len(),
    ensures
        digits_value(s.subrange(0, k)) <= digits_value(s),
    decreases s.len(),
{
    if k < s.len() {
        assert(s.drop_last().subrange(0, k) =~= s.subrange(0, k));
        lemma_digits_prefix(s.drop_last(), k);
    } else {
        assert(s.subrange(0, k) =~= s);
    }
}

/// Whether `s[lo..hi]` holds a line break.
fn has_newline(s: &str, lo: usize, hi: usize) -> (r: bool)
    requires
        lo <= hi <= s@.len(),
    ensures
        r == s@.subrange(lo as int, hi as int).contains('\n'),
{
    let mut i = lo;
    while i < hi
        invariant
            lo <= i <= hi <= s@.len(),
            forall|j: int| lo <= j < i ==> s@[j] != '\n',
        decreases hi - i,
    {
        if s.get_char(i) == '\n' {
            assert(s@.subrange(lo as int, hi as int)[i - lo] == '\n');
            return true;
        }
        i = i + 1;
    }
    assert forall|j: int| 0 <= j < hi - lo implies s@.subrange(lo as int, hi as int)[j]
        != '\n' by {
        assert(s@.subrange(lo as int, hi as int)[j] == s@[lo + j]);
    }
    false
}

/// The number written by the digits `t[lo..hi]`, if it fits in 32 bits.
fn parse_digits(t: &str, lo: usize, hi: usize) -> (r: Option<u32>)
    requires
        lo <= hi <= t@.len(),
        forall|j: int| lo <= j < hi ==> is_digit(#[trigger] t@[j]),
    ensures
        match r {
            Some(v) => v as nat == digits_value(t@.subrange(lo as int, hi as int)),
            None => digits_value(t@.subrange(lo as int, hi as int)) > u32::MAX,
        },
{
    let mut v: u64 = 0;
    let mut i = lo;
    assert(t@.subrange(lo as int, lo as int) =~= Seq::<char>::empty());
    while i < hi
        invariant
            lo <= i <= hi <= t@.len(),
            forall|j: int| lo <= j < hi ==> is_digit(#[trigger] t@[j]),
            v as nat == digits_value(t@.subrange(lo as int, i as int)),
            v <= u32::MAX,
        decreases hi - i,
    {
        let c = t.get_char(i);
        assert(is_digit(t@[i as int]));
        let d = (c as u32 - '0' as u32) as u64;
        assert(t@.subrange(lo as int, i + 1).drop_last() =~= t@.subrange(lo as int, i as int));
        v = v * 10 + d;
        if v > u32::MAX as u64 {
            proof {
                let full = t@.subrange(lo as int, hi as int);
                assert(full.subrange(0, i + 1 - lo) =~= t@.subrange(lo as int, i + 1));
                lemma_digits_prefix(full, i + 1 - lo);
            }
            return None;
        }
        i = i + 1;
    }
    Some(v as u32)
}

/// Start of the run of digits that ends just before index `j` of `t`.
fn digit_run_start_of(t: &str, j: usize) -> (r: usize)
    requires
        j <= t@.len(),
    ensures
        r as int == digit_run_start(t@, j as int),
        r <= j,
        forall|k: int| r <= k < j ==> is_digit(#[trigger] t@[k]),
{
    let mut k = j;
    while k > 0 && is_digit_char(t.get_char(k - 1))
        invariant
            k <= j <= t@.len(),
            digit_run_start(t@, k as int) == digit_run_start(t@, j as int),
            forall|i: int| k <= i < j ==> is_digit(#[trigger] t@[i]),
        decreases k,
    {
        k = k - 1;
    }
    k
}

fn is_digit_char(c: char) -> (r: bool)
    ensures
        r == is_digit(c),
{
    '0' <= c && c <= '9'
}

impl ParsedLine {
    /// Reads one line of a listening log.
    pub fn from_str(s: &str) -> (r: Result<ParsedLine, LineError>)
        ensures
            match r {
                Ok(p) => classify(s@) == Ok::<LineView, LineError>(p@),
                Err(e) => classify(s@) == Err::<LineView, LineError>(e),
            },
    {
        let n = s.unicode_len();
        assert(s@.subrange(0, n as int) =~= s@);
        let a = skip_space_forward(s, 0, n);
        if a < n && s.get_char(a) == DATE_ARROW {
            assert(s@.subrange(a as int, n as int).drop_first() =~= s@.subrange(
                a + 1,
                n as int,
            ));
            let (lo, hi) = trim_bounds(s, a + 1, n);
            if !has_newline(s, lo, hi) {
                return Ok(ParsedLine::Date(copy_range(s, lo, hi)));
            }
        }
        let b = skip_space_back(s, a, n);
        if a == b {
            return Err(LineError::Malformed);
        }
        let t = copy_range(s, a, b);
        let t = t.as_str();
        let m = b - a;
        assert(t@ == trim(s@));
        if m >= 4 && t.get_char(m - 1) == ')' && t.get_char(m - 2) == 'x' {
            let d = digit_run_start_of(t, m - 2);
            if d < m - 2 && d >= 2 && t.get_char(d - 1) == '(' {
                let p = d - 1;
                let e = skip_space_back(t, 0, p);
                if has_newline(t, 0, e) {
                    return Err(LineError::Malformed);
                }
                return match parse_digits(t, d, m - 2) {
                    Some(v) => Ok(ParsedLine::Entry(FreqEntry::new(v as u64, copy_range(t, 0, e)))),
                    None => Err(LineError::BadCount),
                };
            }
        }
        assert(t@.subrange(0, m as int) =~= t@);
        if has_newline(t, 0, m) {
            return Err(LineError::Malformed);
        }
        Ok(ParsedLine::Entry(FreqEntry::new(1, copy_range(t, 0, m))))
    }
}

} // verus!
