use vstd::prelude::*;

use crate::text::{lemma_text_lt_total, text_lt};

verus! {

/// A value with the number of times it was counted.
pub struct FreqEntry {
    pub freq: u64,
    pub value: String,
}

impl View for FreqEntry {
    type V = (Seq<char>, nat);

    open spec fn view(&self) -> (Seq<char>, nat) {
        (self.value@, self.freq as nat)
    }
}

/// The views of a sequence of entries.
pub open spec fn entries_view(s: Seq<FreqEntry>) -> Seq<(Seq<char>, nat)> {
    s.map_values(|e: FreqEntry| e@)
}

impl FreqEntry {
    pub fn new(freq: u64, value: String) -> (r: FreqEntry)
        ensures
            r.freq == freq,
            r.value@ == value@,
    {
        FreqEntry { freq, value }
    }
}

/// Report order: higher frequency first, then the value in lexical order.
pub open spec fn entry_before(a: FreqEntry, b: FreqEntry) -> bool {
    a.freq > b.freq || (a.freq == b.freq && text_lt(a.value@, b.value@))
}

/// `a` may stand before `b` in report order.
pub open spec fn entry_le(a: FreqEntry, b: FreqEntry) -> bool {
    entry_before(a, b) || (a.freq == b.freq && a.value@ == b.value@)
}

/// Report order is a strict total order on entry views: no entry comes
/// before itself, of two different entries one comes first, and it is transitive.
pub proof fn lemma_entry_order_total(a: FreqEntry, b: FreqEntry, c: FreqEntry)
    ensures
        !entry_before(a, a),
        a@ != b@ ==> entry_before(a, b) || entry_before(b, a),
        entry_before(a, b) && entry_before(b, c) ==> entry_before(a, c),
{
    lemma_text_lt_total(a.value@, b.value@, c.value@);
    lemma_text_lt_total(b.value@, a.value@, c.value@);
}

} // verus!
