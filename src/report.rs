use vstd::prelude::*;

use crate::freq::FreqEntry;
use crate::rank::{ranked_view, RankedEntry};
use crate::text::{trim, trim_bounds};

verus! {

/// The character of a decimal digit.
pub open spec fn digit_char(d: nat) -> char {
    if d == 0 {
        '0'
    } else if d == 1 {
        '1'
    } else if d == 2 {
        '2'
    } else if d == 3 {
        '3'
    } else if d == 4 {
        '4'
    } else if d == 5 {
        '5'
    } else if d == 6 {
        '6'
    } else if d == 7 {
        '7'
    } else if d == 8 {
        '8'
    } else {
        '9'
    }
}

/// `n` written in decimal, without leading zeros.
pub open spec fn decimal(n: nat) -> Seq<char>
    decreases n,
{
    if n < 10 {
        seq![digit_char(n)]
    } else {
        decimal(n / 10).push(digit_char(n % 10))
    }
}

/// `s` with zeros in front to make it at least `w` long.
pub open spec fn zero_pad(s: Seq<char>, w: nat) -> Seq<char> {
    if s.len() >= w {
        s
    } else {
        Seq::new((w - s.len()) as nat, |i: int| '0') + s
    }
}

/// The line that shows an entry: `#<position from 1, zero-padded> <rank>. <value> (x<freq>)`.
pub open spec fn entry_line(e: RankedEntry, width: nat) -> Seq<char> {
    seq!['#'] + zero_pad(decimal((e.idx + 1) as nat), width) + seq![' '] + decimal(e.rank as nat) + seq![
        '.',
        ' ',
    ] + e.freq_entry.value@ + seq![' ', '(', 'x'] + decimal(e.freq_entry.freq as nat) + seq![')']
}

/// The sum of the frequencies.
pub open spec fn total_freq(s: Seq<(Seq<char>, nat)>) -> nat
    decreases s.len(),
{
    if s.len() == 0 {
        0
    } else {
        total_freq(s.drop_last()) + s.last().1
    }
}

/// What an answer to "see all?" means: yes for `y`, `Y` or nothing, no for
/// `n` or `N` (white space around it aside); anything else asks again.
pub open spec fn answer_of(s: Seq<char>) -> Option<bool> {
    let t = trim(s);
    if t.len() == 0 || t == seq!['y'] || t == seq!['Y'] {
        Some(true)
    } else if t == seq!['n'] || t == seq!['N'] {
        Some(false)
    } else {
        None
    }
}

/// Relies on `String::push`: it appends the character.
#[verifier::external_body]
fn push_char(s: &mut String, c: char)
    ensures
        final(s)@ == old(s)@.push(c),
{
    s.push(c)
}

fn digit_of(d: u128) -> (c: char)
    requires
        d < 10,
    ensures
        c == digit_char(d as nat),
{
    if d == 0 {
        '0'
    } else if d == 1 {
        '1'
    } else if d == 2 {
        '2'
    } else if d == 3 {
        '3'
    } else if d == 4 {
        '4'
    } else if d == 5 {
        '5'
    } else if d == 6 {
        '6'
    } else if d == 7 {
        '7'
    } else if d == 8 {
        '8'
    } else {
        '9'
    }
}

/// Appends `n` in decimal.
fn push_decimal(s: &mut String, n: u128)
    ensures
        final(s)@ == old(s)@ + decimal(n as nat),
    decreases n,
{
    if n >= 10 {
        push_decimal(s, n / 10);
    }
    push_char(s, digit_of(n % 10));
    assert(final(s)@ =~= old(s)@ + decimal(n as nat));
}

/// How many decimal digits `n` has.
pub fn digit_count(n: u128) -> (r: usize)
    ensures
        r == decimal(n as nat).len(),
    decreases n,
{
    if n < 10 {
        1
    } else {
        let k = digit_count(n / 10);
        proof {
            lemma_decimal_len(n as nat);
        }
        k + 1
    }
}

pub open spec fn pow10(k: nat) -> nat
    decreases k,
{
    if k == 0 {
        1
    } else {
        10 * pow10((k - 1) as nat)
    }
}

proof fn lemma_decimal_len_below(n: nat, k: nat)
    requires
        k >= 1,
        n < pow10(k),
    ensures
        decimal(n).len() <= k,
    decreases k,
{
    if n >= 10 {
        let p = pow10((k - 1) as nat);
        if k == 1 {
            assert(pow10(1) == 10 * pow10(0));
        }
        assert(n / 10 < p) by (nonlinear_arith)
            requires
                n < 10 * p,
        ;
        lemma_decimal_len_below(n / 10, (k - 1) as nat);
    }
}

proof fn lemma_decimal_len(n: nat)
    requires
        n <= u128::MAX,
    ensures
        decimal(n).len() <= 39,
{
    reveal_with_fuel(pow10, 40);
    assert(pow10(39) == 1_000_000_000_000_000_000_000_000_000_000_000_000_000);
    lemma_decimal_len_below(n, 39);
}

impl RankedEntry {
    /// The line that shows this entry, its position padded with zeros to `width` digits.
    pub fn to_string(&self, width: usize) -> (r: String)
        ensures
            r@ == entry_line(*self, width as nat),
    {
        let mut s = String::new();
        push_char(&mut s, '#');
        let pos = self.idx as u128 + 1;
        let k = digit_count(pos);
        let mut z: usize = k;
        while z < width
            invariant
                k <= z,
                z <= width || k > width,
                k >= width ==> z == k,
                k == decimal(pos as nat).len(),
                s@ == seq!['#'] + Seq::new((z - k) as nat, |i: int| '0'),
            decreases width - z,
        {
            push_char(&mut s, '0');
            assert(s@ =~= seq!['#'] + Seq::new((z + 1 - k) as nat, |i: int| '0'));
            z = z + 1;
        }
        proof {
            if k >= width {
                assert(Seq::new((z - k) as nat, |i: int| '0') =~= Seq::<char>::empty());
            }
        }
        push_decimal(&mut s, pos);
        push_char(&mut s, ' ');
        push_decimal(&mut s, self.rank as u128);
        push_char(&mut s, '.');
        push_char(&mut s, ' ');
        s.append(self.freq_entry.value.as_str());
        push_char(&mut s, ' ');
        push_char(&mut s, '(');
        push_char(&mut s, 'x');
        push_decimal(&mut s, self.freq_entry.freq as u128);
        push_char(&mut s, ')');
        assert(s@ =~= entry_line(*self, width as nat));
        s
    }
}

/// A ranked listing laid out for showing: the lines shown first, the lines
/// kept back until asked for, and the numbers of the summary line.
pub struct Report {
    pub head: Vec<String>,
    pub rest: Vec<String>,
    pub unique: usize,
    pub total: u128,
}

/// Lays out a ranking: the first `top` entries up front, the others held
/// back; positions are padded to as many digits as the count of entries has.
pub fn build_report(ranked: &Vec<RankedEntry>, top: usize) -> (r: Report)
    ensures
        r.unique == ranked@.len(),
        r.total == total_freq(ranked_view(ranked@)),
        r.head@.len() == if ranked@.len() <= top {
            ranked@.len() as int
        } else {
            top as int
        },
        r.head@.len() + r.rest@.len() == ranked@.len(),
        forall|i: int|
            0 <= i < r.head@.len() ==> (#[trigger] r.head@[i])@ == entry_line(
                ranked@[i],
                decimal(ranked@.len() as nat).len(),
            ),
        forall|i: int|
            0 <= i < r.rest@.len() ==> (#[trigger] r.rest@[i])@ == entry_line(
                ranked@[r.head@.len() + i],
                decimal(ranked@.len() as nat).len(),
            ),
        ranked@.len() <= top ==> r.rest@.len() == 0 && r.head@.len() == ranked@.len(),
{
    let n = ranked.len();
    let width = digit_count(n as u128);
    let mut head: Vec<String> = Vec::new();
    let mut rest: Vec<String> = Vec::new();
    let mut total: u128 = 0;
    let mut i: usize = 0;
    let ghost s = ranked_view(ranked@);
    assert(s.subrange(0, 0) =~= Seq::<(Seq<char>, nat)>::empty());
    while i < n
        invariant
            n == ranked@.len() == s.len(),
            s == ranked_view(ranked@),
            width == decimal(n as nat).len(),
            i <= n,
            total == total_freq(s.subrange(0, i as int)),
            total <= i * 0xffff_ffff_ffff_ffff,
            i <= top ==> head@.len() == i && rest@.len() == 0,
            i > top ==> head@.len() == top && rest@.len() == i - top,
            forall|k: int|
                0 <= k < head@.len() ==> (#[trigger] head@[k])@ == entry_line(
                    ranked@[k],
                    width as nat,
                ),
            forall|k: int|
                0 <= k < rest@.len() ==> (#[trigger] rest@[k])@ == entry_line(
                    ranked@[head@.len() + k],
                    width as nat,
                ),
        decreases n - i,
    {
        let line = ranked[i].to_string(width);
        if i < top {
            head.push(line);
        } else {
            rest.push(line);
        }
        assert(s.subrange(0, i + 1).drop_last() =~= s.subrange(0, i as int));
        assert(s[i as int].1 == ranked@[i as int].freq_entry.freq);
        total = total + ranked[i].freq_entry.freq as u128;
        i = i + 1;
    }
    assert(s.subrange(0, n as int) =~= s);
    Report { head, rest, unique: n, total }
}

impl Report {
    /// Whether entries were held back, so that the reader is asked about them.
    pub fn needs_prompt(&self) -> (r: bool)
        ensures
            r == (self.rest@.len() > 0),
    {
        self.rest.len() > 0
    }
}

/// Reads an answer to "see all?".
pub fn prompt_answer(response: &str) -> (r: Option<bool>)
    ensures
        r == answer_of(response@),
{
    let n = response.unicode_len();
    assert(response@.subrange(0, n as int) =~= response@);
    let (a, b) = trim_bounds(response, 0, n);
    let ghost t = response@.subrange(a as int, b as int);
    if a == b {
        return Some(true);
    }
    if b - a != 1 {
        assert(t.len() != 1);
        assert(t != seq!['y'] && t != seq!['Y'] && t != seq!['n'] && t != seq!['N']);
        return None;
    }
    let c = response.get_char(a);
    assert(t =~= seq![c]);
    assert(seq!['y'][0] == 'y' && seq!['Y'][0] == 'Y' && seq!['n'][0] == 'n' && seq!['N'][0] == 'N');
    if c == 'y' || c == 'Y' {
        Some(true)
    } else if c == 'n' || c == 'N' {
        Some(false)
    } else {
        assert(t != seq!['y'] && t != seq!['Y'] && t != seq!['n'] && t != seq!['N']) by {
            assert(t[0] == c);
        }
        None
    }
}

} // verus!
