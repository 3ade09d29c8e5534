//! Lines of the plain-text sources: comments and tab-separated fields.

use vstd::prelude::*;

verus! {

/// The character that starts a comment.
pub const COMMENT_MARK: char = '#';

/// The character that separates the fields of a line.
pub const FIELD_MARK: char = '\t';

/// Where the comment of a line starts, looking from index `from` on: at the
/// first comment mark, or at the end of the line if it has none.
pub open spec fn comment_from(line: Seq<char>, from: int) -> int
    decreases line.len() - from,
{
    if from >= line.len() {
        line.len() as int
    } else if line[from] == COMMENT_MARK {
        from
    } else {
        comment_from(line, from + 1)
    }
}

/// A line without its comment.
pub open spec fn uncommented(line: Seq<char>) -> Seq<char> {
    line.take(comment_from(line, 0))
}

/// The fields of a text: what stands between its field marks. A text
/// without a mark is one field, and the empty text is one empty field.
pub open spec fn fields(text: Seq<char>) -> Seq<Seq<char>>
    decreases text.len(),
{
    if text.len() == 0 {
        seq![Seq::<char>::empty()]
    } else {
        let before = fields(text.drop_last());
        if text.last() == FIELD_MARK {
            before.push(Seq::<char>::empty())
        } else {
            before.drop_last().push(before.last().push(text.last()))
        }
    }
}

/// The views of a list of character sequences.
pub open spec fn views(list: Seq<Vec<char>>) -> Seq<Seq<char>> {
    Seq::new(list.len(), |i: int| list[i]@)
}

/// Where the comment of a line starts.
pub fn comment_start(line: &Vec<char>) -> (at: usize)
    ensures
        at == comment_from(line@, 0),
        at <= line@.len(),
{
    let mut at: usize = 0;
    while at < line.len()
        invariant
            at <= line@.len(),
            comment_from(line@, 0) == comment_from(line@, at as int),
        decreases line@.len() - at,
    {
        if line[at] == COMMENT_MARK {
            return at;
        }
        at = at + 1;
    }
    at
}

/// Splits the first `upto` characters of a line into its fields.
pub fn split_fields(line: &Vec<char>, upto: usize) -> (parts: Vec<Vec<char>>)
    requires
        upto <= line@.len(),
    ensures
        views(parts@) == fields(line@.take(upto as int)),
{
    let mut parts: Vec<Vec<char>> = Vec::new();
    let mut current: Vec<char> = Vec::new();
    let mut i: usize = 0;
    proof {
        assert(line@.take(0) =~= Seq::<char>::empty());
        assert(views(parts@).push(current@) =~= fields(line@.take(0)));
    }
    while i < upto
        invariant
            i <= upto <= line@.len(),
            views(parts@).push(current@) == fields(line@.take(i as int)),
        decreases upto - i,
    {
        let c: char = line[i];
        let ghost before = fields(line@.take(i as int));
        proof {
            assert(line@.take(i + 1).drop_last() =~= line@.take(i as int));
            assert(line@.take(i + 1).last() == c);
            assert(before.last() == current@);
            assert(before.drop_last() =~= views(parts@));
        }
        if c == FIELD_MARK {
            let ghost old_parts = parts@;
            parts.push(current);
            current = Vec::new();
            proof {
                assert(views(parts@) =~= views(old_parts).push(parts@[old_parts.len() as int]@));
                assert(views(parts@).push(current@) =~= fields(line@.take(i + 1)));
            }
        } else {
            current.push(c);
            proof {
                assert(views(parts@).push(current@) =~= fields(line@.take(i + 1)));
            }
        }
        i = i + 1;
    }
    let ghost old_parts = parts@;
    parts.push(current);
    proof {
        assert(views(parts@) =~= views(old_parts).push(parts@[old_parts.len() as int]@));
    }
    parts
}

} // verus!
