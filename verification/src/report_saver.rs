//! Names for report files: the stem of the text file, the name of the
//! report, and a number where the name is taken.

use crate::chars::{append_chars, copy_chars};
use vstd::prelude::*;

verus! {

/// The character that writes a digit.
pub open spec fn digit_char(d: int) -> char {
    if d == 0 {
        '0'
    } else if d == 1 {
        '1'
    } else if d == 2 {
        '2'
    } else if d == 3 {
        '3'
    } else if d == 4 {
        '4'
    } else if d == 5 {
        '5'
    } else if d == 6 {
        '6'
    } else if d == 7 {
        '7'
    } else if d == 8 {
        '8'
    } else {
        '9'
    }
}

/// A number written in decimal digits.
pub open spec fn digits_of(n: nat) -> Seq<char>
    decreases n,
{
    if n < 10 {
        seq![digit_char(n as int)]
    } else {
        digits_of(n / 10).push(digit_char((n % 10) as int))
    }
}

/// The name of the file for a report at the given attempt: the stem, an
/// underscore, the name of the report, from the second attempt on an
/// underscore and the number of the attempt, and `.txt`.
pub open spec fn report_name_of(stem: Seq<char>, name: Seq<char>, attempt: nat) -> Seq<char> {
    let base = stem.push('_') + name;
    if attempt >= 2 {
        base.push('_') + digits_of(attempt) + seq!['.', 't', 'x', 't']
    } else {
        base + seq!['.', 't', 'x', 't']
    }
}

/// The character that writes a digit.
fn digit_to_char(d: usize) -> (c: char)
    requires
        d < 10,
    ensures
        c == digit_char(d as int),
{
    if d == 0 {
        '0'
    } else if d == 1 {
        '1'
    } else if d == 2 {
        '2'
    } else if d == 3 {
        '3'
    } else if d == 4 {
        '4'
    } else if d == 5 {
        '5'
    } else if d == 6 {
        '6'
    } else if d == 7 {
        '7'
    } else if d == 8 {
        '8'
    } else {
        '9'
    }
}

/// Appends a number in decimal digits.
fn push_digits(out: &mut Vec<char>, n: usize)
    ensures
        final(out)@ == old(out)@ + digits_of(n as nat),
    decreases n,
{
    if n >= 10 {
        push_digits(out, n / 10);
    }
    out.push(digit_to_char(n % 10));
    proof {
        if n >= 10 {
            assert(out@ =~= old(out)@ + digits_of(n as nat));
        } else {
            assert(out@ =~= old(out)@ + digits_of(n as nat));
        }
    }
}

/// The name of the file for a report: the first attempt is the plain name,
/// and each later one carries its number, so that a caller can go on until a
/// name is free.
pub fn report_name(stem: &Vec<char>, name: &Vec<char>, attempt: usize) -> (file: Vec<char>)
    ensures
        file@ == report_name_of(stem@, name@, attempt as nat),
{
    let mut file = copy_chars(stem);
    file.push('_');
    append_chars(&mut file, name, 0);
    assert(name@.skip(0) =~= name@);
    if attempt >= 2 {
        file.push('_');
        push_digits(&mut file, attempt);
    }
    file.push('.');
    file.push('t');
    file.push('x');
    file.push('t');
    assert(file@ =~= report_name_of(stem@, name@, attempt as nat));
    file
}

} // verus!
