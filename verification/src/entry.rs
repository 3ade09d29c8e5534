//! Dictionary entries and the order in which they claim their codes.

use crate::chars::{
    chars_before, copy_chars, is_before, lemma_before_asymmetric, lemma_before_total,
    lemma_before_transitive, same_chars,
};
use vstd::prelude::*;

verus! {

/// One line of a dictionary source: a word, the code that types it, and the
/// priority of the pair.
#[derive(Debug, PartialEq, Eq)]
pub struct Entry {
    /// The characters that the code types.
    pub word: Vec<char>,
    /// The keystrokes that the source gives for the word.
    pub code: Vec<char>,
    /// Entries of higher priority claim their codes first.
    pub priority: usize,
}

/// The mathematical content of an entry.
pub struct EntryView {
    /// The characters that the code types.
    pub word: Seq<char>,
    /// The keystrokes that the source gives for the word.
    pub code: Seq<char>,
    /// Entries of higher priority claim their codes first.
    pub priority: nat,
}

impl View for Entry {
    type V = EntryView;

    open spec fn view(&self) -> EntryView {
        EntryView { word: self.word@, code: self.code@, priority: self.priority as nat }
    }
}

impl Entry {
    /// A copy of the entry.
    pub fn copy(&self) -> (copy: Entry)
        ensures
            copy@ == self@,
    {
        Entry {
            word: copy_chars(&self.word),
            code: copy_chars(&self.code),
            priority: self.priority,
        }
    }

    /// Whether two entries hold the same word, code and priority.
    pub fn same(&self, other: &Entry) -> (same: bool)
        ensures
            same == (self@ == other@),
    {
        self.priority == other.priority && same_chars(&self.word, &other.word) && same_chars(
            &self.code,
            &other.code,
        )
    }
}

/// The views of a list of entries.
pub open spec fn entry_views(entries: Seq<Entry>) -> Seq<EntryView> {
    Seq::new(entries.len(), |i: int| entries[i]@)
}

/// Whether `a` has fewer keystrokes per character than `b`.
pub open spec fn ratio_less(a: EntryView, b: EntryView) -> bool {
    a.code.len() * b.word.len() < b.code.len() * a.word.len()
}

/// The order of entries: higher priority first; then fewer keystrokes per
/// character; then the word, and last the code, in dictionary order.
pub open spec fn entry_before(a: EntryView, b: EntryView) -> bool {
    if a.priority != b.priority {
        a.priority > b.priority
    } else if ratio_less(a, b) {
        true
    } else if ratio_less(b, a) {
        false
    } else if a.word != b.word {
        chars_before(a.word, b.word)
    } else {
        chars_before(a.code, b.code)
    }
}

/// A list of entries in strictly ascending order.
pub open spec fn strictly_sorted(entries: Seq<EntryView>) -> bool {
    forall|i: int, j: int| 0 <= i < j < entries.len() ==> entry_before(entries[i], entries[j])
}

/// Of two different entries one comes before the other.
pub proof fn lemma_entry_total(a: EntryView, b: EntryView)
    ensures
        a == b || entry_before(a, b) || entry_before(b, a),
{
    lemma_before_total(a.word, b.word, 0);
    lemma_before_total(a.code, b.code, 0);
}

/// No entry comes before one that comes before it, nor before itself.
pub proof fn lemma_entry_asymmetric(a: EntryView, b: EntryView)
    ensures
        !(entry_before(a, b) && entry_before(b, a)),
{
    lemma_before_asymmetric(a.word, b.word, 0);
    lemma_before_asymmetric(a.code, b.code, 0);
}

/// Keystrokes per character compare transitively.
proof fn lemma_ratio_transitive(c1: int, w1: int, c2: int, w2: int, c3: int, w3: int)
    requires
        0 <= c1 && 0 <= c2 && 0 <= c3,
        0 < w1 && 0 < w2 && 0 < w3,
        c1 * w2 <= c2 * w1,
        c2 * w3 <= c3 * w2,
    ensures
        c1 * w3 <= c3 * w1,
        (c1 * w2 < c2 * w1 || c2 * w3 < c3 * w2) ==> c1 * w3 < c3 * w1,
{
    assert((c1 * w2) * w3 <= (c2 * w1) * w3) by (nonlinear_arith)
        requires
            c1 * w2 <= c2 * w1,
            0 < w3,
    ;
    assert((c2 * w3) * w1 <= (c3 * w2) * w1) by (nonlinear_arith)
        requires
            c2 * w3 <= c3 * w2,
            0 < w1,
    ;
    assert((c2 * w1) * w3 == (c2 * w3) * w1) by (nonlinear_arith);
    assert((c1 * w2) * w3 == (c1 * w3) * w2) by (nonlinear_arith);
    assert((c3 * w2) * w1 == (c3 * w1) * w2) by (nonlinear_arith);
    assert((c1 * w3) * w2 <= (c3 * w1) * w2);
    assert(c1 * w3 <= c3 * w1) by (nonlinear_arith)
        requires
            (c1 * w3) * w2 <= (c3 * w1) * w2,
            0 < w2,
    ;
    if c1 * w2 < c2 * w1 {
        assert((c1 * w2) * w3 < (c2 * w1) * w3) by (nonlinear_arith)
            requires
                c1 * w2 < c2 * w1,
                0 < w3,
        ;
        assert(c1 * w3 < c3 * w1) by (nonlinear_arith)
            requires
                (c1 * w3) * w2 < (c3 * w1) * w2,
                0 < w2,
        ;
    }
    if c2 * w3 < c3 * w2 {
        assert((c2 * w3) * w1 < (c3 * w2) * w1) by (nonlinear_arith)
            requires
                c2 * w3 < c3 * w2,
                0 < w1,
        ;
        assert(c1 * w3 < c3 * w1) by (nonlinear_arith)
            requires
                (c1 * w3) * w2 < (c3 * w1) * w2,
                0 < w2,
        ;
    }
}

/// The order of entries is transitive on entries whose words are not empty.
pub proof fn lemma_entry_transitive(a: EntryView, b: EntryView, c: EntryView)
    requires
        a.word.len() > 0,
        b.word.len() > 0,
        c.word.len() > 0,
        entry_before(a, b),
        entry_before(b, c),
    ensures
        entry_before(a, c),
{
    if a.priority == b.priority && b.priority == c.priority {
        lemma_ratio_transitive(
            a.code.len() as int,
            a.word.len() as int,
            b.code.len() as int,
            b.word.len() as int,
            c.code.len() as int,
            c.word.len() as int,
        );
        if !ratio_less(a, b) && !ratio_less(b, c) {
            lemma_ratio_transitive(
                c.code.len() as int,
                c.word.len() as int,
                b.code.len() as int,
                b.word.len() as int,
                a.code.len() as int,
                a.word.len() as int,
            );
            lemma_before_asymmetric(a.word, b.word, 0);
            lemma_before_asymmetric(a.code, b.code, 0);
            if a.word != b.word && b.word != c.word {
                lemma_before_transitive(a.word, b.word, c.word, 0);
                lemma_before_asymmetric(a.word, b.word, 0);
            } else if a.word == b.word && b.word == c.word {
                lemma_before_transitive(a.code, b.code, c.code, 0);
            }
        }
    }
}

/// Whether `a` has fewer keystrokes per character than `b`.
fn has_lower_ratio(a: &Entry, b: &Entry) -> (less: bool)
    ensures
        less == ratio_less(a@, b@),
{
    let ac: u128 = a.code.len() as u128;
    let aw: u128 = a.word.len() as u128;
    let bc: u128 = b.code.len() as u128;
    let bw: u128 = b.word.len() as u128;
    assert(ac * bw <= u64::MAX * u64::MAX) by (nonlinear_arith)
        requires
            ac <= u64::MAX,
            bw <= u64::MAX,
    ;
    assert(bc * aw <= u64::MAX * u64::MAX) by (nonlinear_arith)
        requires
            bc <= u64::MAX,
            aw <= u64::MAX,
    ;
    ac * bw < bc * aw
}

/// Whether `a` comes before `b` in the order of entries.
pub fn precedes(a: &Entry, b: &Entry) -> (before: bool)
    ensures
        before == entry_before(a@, b@),
{
    if a.priority != b.priority {
        a.priority > b.priority
    } else if has_lower_ratio(a, b) {
        true
    } else if has_lower_ratio(b, a) {
        false
    } else if !same_chars(&a.word, &b.word) {
        is_before(&a.word, &b.word)
    } else {
        is_before(&a.code, &b.code)
    }
}

} // verus!
