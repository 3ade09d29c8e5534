//! The lines of a timing source: a key pair and its cost, separated by a tab.

use crate::chars::copy_chars;
use crate::lines::{fields, split_fields};
use vstd::prelude::*;

verus! {

/// What a line of a timing source names: the two keys of a pair and the
/// text of its cost.
pub struct TimingLine {
    /// The key that is struck first.
    pub first: char,
    /// The key that is struck second.
    pub second: char,
    /// The cost of the pair, as the line writes it.
    pub cost: Vec<char>,
}

/// The two keys and the cost text that a line of a timing source gives, if
/// it is well formed: two fields, the first of them two characters long.
pub open spec fn timing_of(line: Seq<char>) -> Option<(char, char, Seq<char>)> {
    let parts = fields(line);
    if parts.len() == 2 && parts[0].len() == 2 {
        Some((parts[0][0], parts[0][1], parts[1]))
    } else {
        None
    }
}

/// Reads one line of a timing source, as far as its key pair; the cost is
/// left as text.
pub fn read_timing_line(line: &Vec<char>) -> (read: Option<TimingLine>)
    ensures
        match read {
            Some(t) => timing_of(line@) == Some((t.first, t.second, t.cost@)),
            None => timing_of(line@) is None,
        },
{
    let parts = split_fields(line, line.len());
    assert(line@.take(line@.len() as int) =~= line@);
    if parts.len() != 2 || parts[0].len() != 2 {
        return None;
    }
    Some(TimingLine { first: parts[0][0], second: parts[0][1], cost: copy_chars(&parts[1]) })
}

} // verus!
