//! Dictionary sources: one entry on each line, as a word, a code and, if
//! given, a priority, separated by tabs.

use crate::entry::{entry_views, Entry, EntryView};
use crate::lines::{comment_start, fields, split_fields, uncommented, views};
use vstd::prelude::*;

verus! {

/// Whether a character is one of the digits `0` to `9`.
pub open spec fn is_digit(c: char) -> bool {
    '0' <= c && c <= '9'
}

/// Whether a text is made of digits only.
pub open spec fn all_digits(text: Seq<char>) -> bool {
    forall|i: int| 0 <= i < text.len() ==> is_digit(#[trigger] text[i])
}

/// The number that a text of digits writes.
pub open spec fn decimal(text: Seq<char>) -> nat
    decreases text.len(),
{
    if text.len() == 0 {
        0
    } else {
        decimal(text.drop_last()) * 10 + ((text.last() as u32 - '0' as u32) as nat)
    }
}

/// The digits of a priority: the text without the plus sign that may stand
/// in front.
pub open spec fn unsigned_part(text: Seq<char>) -> Seq<char> {
    if text.len() > 0 && text[0] == '+' {
        text.skip(1)
    } else {
        text
    }
}

/// The priority that a text gives: the number it writes, if it is made of
/// one digit at least, after at most one plus sign, and the number fits;
/// zero otherwise.
pub open spec fn priority_of(text: Seq<char>) -> nat {
    let digits = unsigned_part(text);
    if digits.len() > 0 && all_digits(digits) && decimal(digits) <= usize::MAX {
        decimal(digits)
    } else {
        0
    }
}

/// The entry that a line of a dictionary source gives, if it gives one: the
/// line without its comment must have two fields, or three.
pub open spec fn entry_of(line: Seq<char>) -> Option<EntryView> {
    let parts = fields(uncommented(line));
    if parts.len() == 2 {
        Some(EntryView { word: parts[0], code: parts[1], priority: 0 })
    } else if parts.len() == 3 {
        Some(EntryView { word: parts[0], code: parts[1], priority: priority_of(parts[2]) })
    } else {
        None
    }
}

/// The entries that the lines of a dictionary source give, in the order of
/// the lines.
pub open spec fn entries_of(lines: Seq<Seq<char>>) -> Seq<EntryView>
    decreases lines.len(),
{
    if lines.len() == 0 {
        Seq::empty()
    } else {
        let before = entries_of(lines.drop_last());
        match entry_of(lines.last()) {
            Some(entry) => before.push(entry),
            None => before,
        }
    }
}

/// A longer text of digits writes no lesser number.
proof fn lemma_decimal_grows(text: Seq<char>, i: int, j: int)
    requires
        0 <= i <= j <= text.len(),
    ensures
        decimal(text.take(i)) <= decimal(text.take(j)),
    decreases j - i,
{
    if i < j {
        lemma_decimal_grows(text, i, j - 1);
        assert(text.take(j).drop_last() =~= text.take(j - 1));
    }
}

/// The value of a digit.
fn digit_value(c: char) -> (value: usize)
    requires
        is_digit(c),
    ensures
        value == c as u32 - '0' as u32,
        value <= 9,
{
    (c as u32 - '0' as u32) as usize
}

/// Whether a character is a digit.
fn digit(c: char) -> (yes: bool)
    ensures
        yes == is_digit(c),
{
    '0' <= c && c <= '9'
}

/// Reads a priority.
pub fn parse_priority(text: &Vec<char>) -> (priority: usize)
    ensures
        priority == priority_of(text@),
{
    let start: usize = if text.len() > 0 && text[0] == '+' {
        1
    } else {
        0
    };
    let ghost digits = unsigned_part(text@);
    proof {
        if start == 0 {
            assert(digits =~= text@.skip(0));
        }
        assert(digits.take(0) =~= Seq::<char>::empty());
    }
    if start == text.len() {
        return 0;
    }
    let mut value: usize = 0;
    let mut i: usize = start;
    while i < text.len()
        invariant
            start <= i <= text@.len(),
            digits == text@.skip(start as int),
            digits == unsigned_part(text@),
            value == decimal(digits.take(i - start)),
            all_digits(digits.take(i - start)),
        decreases text@.len() - i,
    {
        let c: char = text[i];
        proof {
            assert(digits[i - start] == c);
            assert(digits.take(i - start + 1).drop_last() =~= digits.take(i - start));
            assert(digits.take(i - start + 1).last() == c);
        }
        if !digit(c) {
            assert(!is_digit(digits[i - start]));
            return 0;
        }
        let d: usize = digit_value(c);
        if value > (usize::MAX - d) / 10 {
            proof {
                assert(decimal(digits.take(i - start + 1)) == value * 10 + d);
                assert(value * 10 + d > usize::MAX);
                lemma_decimal_grows(digits, i - start + 1, digits.len() as int);
                assert(digits.take(digits.len() as int) =~= digits);
            }
            return 0;
        }
        value = value * 10 + d;
        i = i + 1;
        proof {
            assert forall|k: int| 0 <= k < digits.take(i - start).len() implies is_digit(
                #[trigger] digits.take(i - start)[k],
            ) by {
                if k < i - start - 1 {
                    assert(digits.take(i - start - 1)[k] == digits[k]);
                }
            }
        }
    }
    assert(digits.take(i - start) =~= digits);
    value
}

/// Reads one line of a dictionary source.
///
/// What follows the first `#` is a comment. The rest is split at the tabs:
/// two fields are a word and its code, with priority zero; three fields are
/// a word, its code and its priority; any other line gives no entry.
pub fn read_rime_line(line: &Vec<char>) -> (entry: Option<Entry>)
    ensures
        match entry {
            Some(e) => entry_of(line@) == Some(e@),
            None => entry_of(line@) is None,
        },
{
    let cut: usize = comment_start(line);
    let mut parts = split_fields(line, cut);
    if parts.len() == 2 {
        let code = parts.pop().unwrap();
        let word = parts.pop().unwrap();
        Some(Entry { word, code, priority: 0 })
    } else if parts.len() == 3 {
        let priority: usize = parse_priority(&parts[2]);
        parts.pop();
        let code = parts.pop().unwrap();
        let word = parts.pop().unwrap();
        Some(Entry { word, code, priority })
    } else {
        None
    }
}

/// Reads the lines of a dictionary source: the entries that the lines give,
/// in the order of the lines.
pub fn read_rime_file(lines: &Vec<Vec<char>>) -> (items: Vec<Entry>)
    ensures
        entry_views(items@) == entries_of(views(lines@)),
{
    let mut items: Vec<Entry> = Vec::new();
    let mut i: usize = 0;
    proof {
        assert(views(lines@).take(0) =~= Seq::<Seq<char>>::empty());
        assert(entry_views(items@) =~= Seq::<EntryView>::empty());
    }
    while i < lines.len()
        invariant
            i <= lines@.len(),
            entry_views(items@) == entries_of(views(lines@).take(i as int)),
        decreases lines@.len() - i,
    {
        proof {
            assert(views(lines@).take(i + 1).drop_last() =~= views(lines@).take(i as int));
            assert(views(lines@).take(i + 1).last() == lines@[i as int]@);
        }
        let ghost before = items@;
        match read_rime_line(&lines[i]) {
            Some(entry) => {
                items.push(entry);
                assert(entry_views(items@) =~= entry_views(
                    before,
                ).push(entry@));
            },
            None => {},
        }
        i = i + 1;
    }
    assert(views(lines@).take(i as int) =~= views(lines@));
    items
}

} // verus!
