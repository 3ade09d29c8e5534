//! Counts over a finished route: how the keystrokes fall on the rows and
//! fingers of a keyboard layout, and how often keys repeat, fingers leap and
//! hands alternate.

use rayon::iter::{IndexedParallelIterator, IntoParallelIterator, ParallelIterator};
use vstd::prelude::*;

verus! {

/// How many lines a layout has: lines 0 to 3 are the rows of the keyboard,
/// line 4 marks the bottom row, lines 5 to 12 are the eight finger zones from
/// the left little finger to the right one, and line 13 holds the thumb keys.
pub const LAYOUT_LINES: usize = 14;

/// What two keys in a row amount to.
#[derive(Clone, Copy, Debug, PartialEq, Eq, Structural)]
pub enum PairMark {
    /// Nothing that is counted.
    Plain,
    /// The same key twice.
    Double,
    /// One finger moves to the next row.
    SmallLeap,
    /// One finger skips a row.
    MediumLeap,
    /// One finger skips two rows.
    LargeLeap,
}

/// What three keys in a row amount to.
#[derive(Clone, Copy, Debug, PartialEq, Eq, Structural)]
pub enum TripleMark {
    /// Nothing that is counted.
    Plain,
    /// The same key three times.
    Triple,
    /// One hand, the other hand, and the first hand again.
    Turn,
}

/// What is counted at one keystroke of a route.
#[derive(Clone, Copy, Debug, PartialEq, Eq)]
pub struct Marks {
    /// For each line of the layout, whether it holds the key.
    pub lines: [bool; 14],
    /// What the key amounts to with the one before it.
    pub pair: PairMark,
    /// What the key amounts to with the two before it.
    pub triple: TripleMark,
    /// Whether the key ends a run of four equal keys.
    pub quadruple: bool,
    /// Whether the key ends a run of five equal keys.
    pub quintuple: bool,
}

/// The lines of a layout as character sequences.
pub open spec fn lines_of(layout: Seq<Vec<char>>) -> Seq<Seq<char>> {
    Seq::new(layout.len(), |j: int| layout[j]@)
}

/// Whether line `j` of the layout holds a key.
pub open spec fn on_line(lines: Seq<Seq<char>>, j: int, c: char) -> bool {
    lines[j].contains(c)
}

/// Whether one of two keys is on line `a` and the other on line `b`.
pub open spec fn on_both(lines: Seq<Seq<char>>, a: int, b: int, c1: char, c2: char) -> bool {
    (on_line(lines, a, c1) && on_line(lines, b, c2)) || (on_line(lines, a, c2) && on_line(
        lines,
        b,
        c1,
    ))
}

/// Whether some finger zone holds both keys.
pub open spec fn same_finger(lines: Seq<Seq<char>>, c1: char, c2: char) -> bool {
    on_both(lines, 5, 5, c1, c2) || on_both(lines, 6, 6, c1, c2) || on_both(lines, 7, 7, c1, c2)
        || on_both(lines, 8, 8, c1, c2) || on_both(lines, 9, 9, c1, c2) || on_both(
        lines,
        10,
        10,
        c1,
        c2,
    ) || on_both(lines, 11, 11, c1, c2) || on_both(lines, 12, 12, c1, c2)
}

/// Whether the two keys lie on neighbouring rows.
pub open spec fn one_row_apart(lines: Seq<Seq<char>>, c1: char, c2: char) -> bool {
    on_both(lines, 0, 1, c1, c2) || on_both(lines, 1, 2, c1, c2) || on_both(lines, 2, 3, c1, c2)
}

/// Whether the two keys lie two rows apart.
pub open spec fn two_rows_apart(lines: Seq<Seq<char>>, c1: char, c2: char) -> bool {
    on_both(lines, 0, 2, c1, c2) || on_both(lines, 1, 3, c1, c2)
}

/// Whether the two keys lie three rows apart.
pub open spec fn three_rows_apart(lines: Seq<Seq<char>>, c1: char, c2: char) -> bool {
    on_both(lines, 0, 3, c1, c2)
}

/// Whether a finger of the left hand types the key.
pub open spec fn left_hand(lines: Seq<Seq<char>>, c: char) -> bool {
    on_line(lines, 5, c) || on_line(lines, 6, c) || on_line(lines, 7, c) || on_line(lines, 8, c)
}

/// Whether a finger of the right hand types the key.
pub open spec fn right_hand(lines: Seq<Seq<char>>, c: char) -> bool {
    on_line(lines, 9, c) || on_line(lines, 10, c) || on_line(lines, 11, c) || on_line(
        lines,
        12,
        c,
    )
}

/// What the key at `i` amounts to with the one before it: the same key
/// again; or, for two keys of one finger, how many rows lie between them.
pub open spec fn pair_mark(lines: Seq<Seq<char>>, keys: Seq<char>, i: int) -> PairMark {
    if i <= 0 {
        PairMark::Plain
    } else if keys[i - 1] == keys[i] {
        PairMark::Double
    } else if !same_finger(lines, keys[i - 1], keys[i]) {
        PairMark::Plain
    } else if one_row_apart(lines, keys[i - 1], keys[i]) {
        PairMark::SmallLeap
    } else if two_rows_apart(lines, keys[i - 1], keys[i]) {
        PairMark::MediumLeap
    } else if three_rows_apart(lines, keys[i - 1], keys[i]) {
        PairMark::LargeLeap
    } else {
        PairMark::Plain
    }
}

/// What the key at `i` amounts to with the two before it: the same key a
/// third time, or a change of hands and back.
pub open spec fn triple_mark(lines: Seq<Seq<char>>, keys: Seq<char>, i: int) -> TripleMark {
    if i <= 1 {
        TripleMark::Plain
    } else if keys[i - 2] == keys[i - 1] && keys[i - 1] == keys[i] {
        TripleMark::Triple
    } else if (left_hand(lines, keys[i - 2]) && right_hand(lines, keys[i - 1]) && left_hand(
        lines,
        keys[i],
    )) || (right_hand(lines, keys[i - 2]) && left_hand(lines, keys[i - 1]) && right_hand(
        lines,
        keys[i],
    )) {
        TripleMark::Turn
    } else {
        TripleMark::Plain
    }
}

/// Whether the `run` keys that end at `i` are all the same key.
pub open spec fn run_ends(keys: Seq<char>, i: int, run: int) -> bool {
    i >= run - 1 && forall|k: int| i - run + 1 < k <= i ==> keys[k - 1] == #[trigger] keys[k]
}

/// Whether `marks` is what is counted at the key at `i`.
pub open spec fn marks_match(lines: Seq<Seq<char>>, keys: Seq<char>, i: int, marks: Marks) -> bool {
    &&& forall|j: int| 0 <= j < 14 ==> #[trigger] marks.lines@[j] == on_line(lines, j, keys[i])
    &&& marks.pair == pair_mark(lines, keys, i)
    &&& marks.triple == triple_mark(lines, keys, i)
    &&& marks.quadruple == run_ends(keys, i, 4)
    &&& marks.quintuple == run_ends(keys, i, 5)
}

/// Whether a line holds a key.
fn has_key(line: &Vec<char>, c: char) -> (has: bool)
    ensures
        has == line@.contains(c),
{
    let mut k: usize = 0;
    while k < line.len()
        invariant
            k <= line@.len(),
            forall|x: int| 0 <= x < k ==> line@[x] != c,
        decreases line@.len() - k,
    {
        if line[k] == c {
            return true;
        }
        k = k + 1;
    }
    false
}

/// Whether one of two keys is on line `a` and the other on line `b`.
fn both_on(layout: &Vec<Vec<char>>, a: usize, b: usize, c1: char, c2: char) -> (both: bool)
    requires
        a < layout@.len(),
        b < layout@.len(),
    ensures
        both == on_both(lines_of(layout@), a as int, b as int, c1, c2),
{
    (has_key(&layout[a], c1) && has_key(&layout[b], c2)) || (has_key(&layout[a], c2) && has_key(
        &layout[b],
        c1,
    ))
}

/// Whether a finger of the hand whose zones start at line `first` types the
/// key.
fn hand_has(layout: &Vec<Vec<char>>, first: usize, c: char) -> (has: bool)
    requires
        layout@.len() == LAYOUT_LINES,
        first == 5 || first == 9,
    ensures
        first == 5 ==> has == left_hand(lines_of(layout@), c),
        first == 9 ==> has == right_hand(lines_of(layout@), c),
{
    has_key(&layout[first], c) || has_key(&layout[first + 1], c) || has_key(
        &layout[first + 2],
        c,
    ) || has_key(&layout[first + 3], c)
}

/// What is counted at the key at `i`.
pub fn marks_at(layout: &Vec<Vec<char>>, keys: &Vec<char>, i: usize) -> (marks: Marks)
    requires
        layout@.len() == LAYOUT_LINES,
        i < keys@.len(),
    ensures
        marks_match(lines_of(layout@), keys@, i as int, marks),
{
    let ghost lines = lines_of(layout@);
    let c: char = keys[i];
    let mut on: [bool; 14] = [false; 14];
    let mut j: usize = 0;
    while j < LAYOUT_LINES
        invariant
            layout@.len() == LAYOUT_LINES,
            lines == lines_of(layout@),
            c == keys@[i as int],
            j <= LAYOUT_LINES,
            forall|x: int| 0 <= x < j ==> #[trigger] on@[x] == on_line(lines, x, c),
        decreases LAYOUT_LINES - j,
    {
        on[j] = has_key(&layout[j], c);
        j = j + 1;
    }
    let pair: PairMark = if i == 0 {
        PairMark::Plain
    } else {
        let b: char = keys[i - 1];
        if b == c {
            PairMark::Double
        } else if !(both_on(layout, 5, 5, b, c) || both_on(layout, 6, 6, b, c) || both_on(
            layout,
            7,
            7,
            b,
            c,
        ) || both_on(layout, 8, 8, b, c) || both_on(layout, 9, 9, b, c) || both_on(
            layout,
            10,
            10,
            b,
            c,
        ) || both_on(layout, 11, 11, b, c) || both_on(layout, 12, 12, b, c)) {
            PairMark::Plain
        } else if both_on(layout, 0, 1, b, c) || both_on(layout, 1, 2, b, c) || both_on(
            layout,
            2,
            3,
            b,
            c,
        ) {
            PairMark::SmallLeap
        } else if both_on(layout, 0, 2, b, c) || both_on(layout, 1, 3, b, c) {
            PairMark::MediumLeap
        } else if both_on(layout, 0, 3, b, c) {
            PairMark::LargeLeap
        } else {
            PairMark::Plain
        }
    };
    let triple: TripleMark = if i <= 1 {
        TripleMark::Plain
    } else {
        let a: char = keys[i - 2];
        let b: char = keys[i - 1];
        if a == b && b == c {
            TripleMark::Triple
        } else if (hand_has(layout, 5, a) && hand_has(layout, 9, b) && hand_has(layout, 5, c))
            || (hand_has(layout, 9, a) && hand_has(layout, 5, b) && hand_has(layout, 9, c)) {
            TripleMark::Turn
        } else {
            TripleMark::Plain
        }
    };
    let quadruple: bool = i > 2 && keys[i - 3] == keys[i - 2] && keys[i - 2] == keys[i - 1]
        && keys[i - 1] == c;
    let quintuple: bool = i > 3 && keys[i - 4] == keys[i - 3] && quadruple;
    Marks { lines: on, pair, triple, quadruple, quintuple }
}

/// What is counted at every key of a route, the keys handed out to the
/// threads of rayon's pool.
///
/// Believed of rayon's `into_par_iter` on a range, `map` and
/// `collect_into_vec`: the vector gets one item for each index of the range,
/// in the order of the indices, and the item for an index is what the
/// mapped function returns for it.
#[verifier::external_body]
fn marks_in_parallel(layout: &Vec<Vec<char>>, keys: &Vec<char>) -> (all: Vec<Marks>)
    requires
        layout@.len() == LAYOUT_LINES,
    ensures
        all@.len() == keys@.len(),
        forall|i: int|
            0 <= i < keys@.len() ==> marks_match(lines_of(layout@), keys@, i, #[trigger] all@[i]),
{
    let mut all: Vec<Marks> = Vec::new();
    (0..keys.len()).into_par_iter().map(|i| marks_at(layout, keys, i)).collect_into_vec(&mut all);
    all
}

/// What can be counted at a key.
pub enum Feature {
    /// The key is on the line with this number.
    OnLine(int),
    /// The key repeats the one before it.
    Double,
    /// The key is the third of the same key.
    Triple,
    /// The key is the fourth of the same key.
    Quadruple,
    /// The key is the fifth of the same key.
    Quintuple,
    /// One finger moved to the next row.
    SmallLeap,
    /// One finger skipped a row.
    MediumLeap,
    /// One finger skipped two rows.
    LargeLeap,
    /// The hands changed and changed back.
    Turn,
}

/// Whether a feature shows at the key at `i`.
pub open spec fn shows(lines: Seq<Seq<char>>, keys: Seq<char>, what: Feature, i: int) -> bool {
    match what {
        Feature::OnLine(j) => on_line(lines, j, keys[i]),
        Feature::Double => pair_mark(lines, keys, i) == PairMark::Double,
        Feature::Triple => triple_mark(lines, keys, i) == TripleMark::Triple,
        Feature::Quadruple => run_ends(keys, i, 4),
        Feature::Quintuple => run_ends(keys, i, 5),
        Feature::SmallLeap => pair_mark(lines, keys, i) == PairMark::SmallLeap,
        Feature::MediumLeap => pair_mark(lines, keys, i) == PairMark::MediumLeap,
        Feature::LargeLeap => pair_mark(lines, keys, i) == PairMark::LargeLeap,
        Feature::Turn => triple_mark(lines, keys, i) == TripleMark::Turn,
    }
}

/// At how many of the first `n` keys a feature shows.
pub open spec fn hits(lines: Seq<Seq<char>>, keys: Seq<char>, what: Feature, n: int) -> nat
    decreases n,
{
    if n <= 0 {
        0
    } else {
        hits(lines, keys, what, n - 1) + if shows(lines, keys, what, n - 1) {
            1nat
        } else {
            0nat
        }
    }
}

/// A feature shows at no more keys than there are, and at no more keys than
/// a feature that shows wherever it does.
pub proof fn lemma_hits(lines: Seq<Seq<char>>, keys: Seq<char>, less: Feature, more: Feature, n: int)
    requires
        0 <= n,
        forall|i: int|
            0 <= i < n && shows(lines, keys, less, i) ==> #[trigger] shows(lines, keys, more, i),
    ensures
        hits(lines, keys, less, n) <= hits(lines, keys, more, n) <= n,
    decreases n,
{
    if n > 0 {
        lemma_hits(lines, keys, less, more, n - 1);
    }
}

/// The counts over a route.
#[derive(Debug, PartialEq, Eq)]
pub struct Analysis {
    /// For each line of the layout, how many keystrokes fall on it.
    pub lines: Vec<usize>,
    /// How many keystrokes the fingers of the left hand type.
    pub left: u128,
    /// How many keystrokes the fingers of the right hand type.
    pub right: u128,
    /// How often one finger moves to the next row.
    pub small_leaps: usize,
    /// How often one finger skips a row.
    pub medium_leaps: usize,
    /// How often one finger skips two rows.
    pub large_leaps: usize,
    /// How often a key repeats the one before it and no third follows.
    pub doubles: usize,
    /// How often a key comes a third time and no fourth follows.
    pub triples: usize,
    /// How often a key comes a fourth time and no fifth follows.
    pub quadruples: usize,
    /// How often a key comes a fifth time or more.
    pub longer_runs: usize,
    /// How often the hands change and change back.
    pub turns: usize,
}

impl Analysis {
    /// Whether the counts are those of a route typed on a layout.
    pub open spec fn describes(self, lines: Seq<Seq<char>>, keys: Seq<char>) -> bool {
        let n = keys.len() as int;
        &&& self.lines@.len() == LAYOUT_LINES
        &&& forall|j: int|
            0 <= j < LAYOUT_LINES ==> #[trigger] self.lines@[j] == hits(
                lines,
                keys,
                Feature::OnLine(j),
                n,
            )
        &&& self.left == self.lines@[5] + self.lines@[6] + self.lines@[7] + self.lines@[8]
        &&& self.right == self.lines@[9] + self.lines@[10] + self.lines@[11] + self.lines@[12]
        &&& self.small_leaps == hits(lines, keys, Feature::SmallLeap, n)
        &&& self.medium_leaps == hits(lines, keys, Feature::MediumLeap, n)
        &&& self.large_leaps == hits(lines, keys, Feature::LargeLeap, n)
        &&& self.doubles == hits(lines, keys, Feature::Double, n) - hits(
            lines,
            keys,
            Feature::Triple,
            n,
        )
        &&& self.triples == hits(lines, keys, Feature::Triple, n) - hits(
            lines,
            keys,
            Feature::Quadruple,
            n,
        )
        &&& self.quadruples == hits(lines, keys, Feature::Quadruple, n) - hits(
            lines,
            keys,
            Feature::Quintuple,
            n,
        )
        &&& self.longer_runs == hits(lines, keys, Feature::Quintuple, n)
        &&& self.turns == hits(lines, keys, Feature::Turn, n)
    }
}

/// One more where the mark is set.
fn bump(count: usize, set: bool, Ghost(limit): Ghost<int>) -> (more: usize)
    requires
        count <= limit < usize::MAX,
    ensures
        more == count + if set {
            1int
        } else {
            0int
        },
{
    if set {
        count + 1
    } else {
        count
    }
}

/// Counts, over a route, how the keystrokes fall on the lines of a layout,
/// and how often keys repeat, fingers leap and hands alternate. There is
/// nothing to count on a layout that has not its fourteen lines.
pub fn analyze(layout: &Vec<Vec<char>>, route: &Vec<char>) -> (done: Option<Analysis>)
    ensures
        done is None <==> layout@.len() != LAYOUT_LINES,
        done matches Some(counts) ==> counts.describes(lines_of(layout@), route@),
{
    if layout.len() != LAYOUT_LINES {
        return None;
    }
    let ghost lines = lines_of(layout@);
    let ghost keys = route@;
    let all = marks_in_parallel(layout, route);
    let mut on: Vec<usize> = Vec::new();
    let mut j: usize = 0;
    while j < LAYOUT_LINES
        invariant
            j <= LAYOUT_LINES,
            on@.len() == j,
            forall|x: int| 0 <= x < j ==> #[trigger] on@[x] == 0,
        decreases LAYOUT_LINES - j,
    {
        on.push(0);
        j = j + 1;
    }
    let mut doubles: usize = 0;
    let mut triples: usize = 0;
    let mut quadruples: usize = 0;
    let mut quintuples: usize = 0;
    let mut small: usize = 0;
    let mut medium: usize = 0;
    let mut large: usize = 0;
    let mut turns: usize = 0;
    let mut i: usize = 0;
    while i < all.len()
        invariant
            i <= all@.len(),
            all@.len() == keys.len(),
            keys == route@,
            lines == lines_of(layout@),
            forall|x: int| 0 <= x < keys.len() ==> marks_match(lines, keys, x, #[trigger] all@[x]),
            on@.len() == LAYOUT_LINES,
            forall|x: int|
                0 <= x < LAYOUT_LINES ==> #[trigger] on@[x] == hits(
                    lines,
                    keys,
                    Feature::OnLine(x),
                    i as int,
                ) && on@[x] <= i,
            doubles == hits(lines, keys, Feature::Double, i as int) <= i,
            triples == hits(lines, keys, Feature::Triple, i as int) <= i,
            quadruples == hits(lines, keys, Feature::Quadruple, i as int) <= i,
            quintuples == hits(lines, keys, Feature::Quintuple, i as int) <= i,
            small == hits(lines, keys, Feature::SmallLeap, i as int) <= i,
            medium == hits(lines, keys, Feature::MediumLeap, i as int) <= i,
            large == hits(lines, keys, Feature::LargeLeap, i as int) <= i,
            turns == hits(lines, keys, Feature::Turn, i as int) <= i,
        decreases all@.len() - i,
    {
        let m: Marks = all[i];
        assert(marks_match(lines, keys, i as int, all@[i as int]));
        assert(all@.len() == all.len());
        let mut x: usize = 0;
        while x < LAYOUT_LINES
            invariant
                x <= LAYOUT_LINES,
                i < all@.len() <= usize::MAX,
                all@.len() == keys.len(),
                on@.len() == LAYOUT_LINES,
                marks_match(lines, keys, i as int, m),
                forall|y: int|
                    0 <= y < x ==> #[trigger] on@[y] == hits(
                        lines,
                        keys,
                        Feature::OnLine(y),
                        i + 1,
                    ) && on@[y] <= i + 1,
                forall|y: int|
                    x <= y < LAYOUT_LINES ==> #[trigger] on@[y] == hits(
                        lines,
                        keys,
                        Feature::OnLine(y),
                        i as int,
                    ) && on@[y] <= i,
            decreases LAYOUT_LINES - x,
        {
            let was: usize = on[x];
            assert(m.lines@[x as int] == on_line(lines, x as int, keys[i as int]));
            on[x] = bump(was, m.lines[x], Ghost(i as int));
            x = x + 1;
        }
        doubles = bump(doubles, m.pair == PairMark::Double, Ghost(i as int));
        small = bump(small, m.pair == PairMark::SmallLeap, Ghost(i as int));
        medium = bump(medium, m.pair == PairMark::MediumLeap, Ghost(i as int));
        large = bump(large, m.pair == PairMark::LargeLeap, Ghost(i as int));
        triples = bump(triples, m.triple == TripleMark::Triple, Ghost(i as int));
        turns = bump(turns, m.triple == TripleMark::Turn, Ghost(i as int));
        quadruples = bump(quadruples, m.quadruple, Ghost(i as int));
        quintuples = bump(quintuples, m.quintuple, Ghost(i as int));
        i = i + 1;
    }
    proof {
        let n = keys.len() as int;
        assert forall|k: int| 0 <= k < n && shows(lines, keys, Feature::Triple, k) implies
            #[trigger] shows(lines, keys, Feature::Double, k) by {}
        lemma_hits(lines, keys, Feature::Triple, Feature::Double, n);
        assert forall|k: int| 0 <= k < n && shows(lines, keys, Feature::Quadruple, k) implies
            #[trigger] shows(lines, keys, Feature::Triple, k) by {
            assert(keys[k - 1] == keys[k]);
            assert(keys[k - 2] == keys[k - 1]);
        }
        lemma_hits(lines, keys, Feature::Quadruple, Feature::Triple, n);
        assert forall|k: int| 0 <= k < n && shows(lines, keys, Feature::Quintuple, k) implies
            #[trigger] shows(lines, keys, Feature::Quadruple, k) by {
            assert forall|y: int| k - 4 + 1 < y <= k implies keys[y - 1] == #[trigger] keys[y] by {}
        }
        lemma_hits(lines, keys, Feature::Quintuple, Feature::Quadruple, n);
    }
    let left: u128 = on[5] as u128 + on[6] as u128 + on[7] as u128 + on[8] as u128;
    let right: u128 = on[9] as u128 + on[10] as u128 + on[11] as u128 + on[12] as u128;
    Some(
        Analysis {
            lines: on,
            left,
            right,
            small_leaps: small,
            medium_leaps: medium,
            large_leaps: large,
            doubles: doubles - triples,
            triples: triples - quadruples,
            quadruples: quadruples - quintuples,
            longer_runs: quintuples,
            turns,
        },
    )
}

/// How many runs of `width` keys in a row a route of `len` keys has, for a
/// width of one key at least and of one more than the length at most.
pub fn windows(len: usize, width: usize) -> (count: Option<usize>)
    ensures
        count == (if 1 <= width <= len + 1 {
            Some((len + 1 - width) as usize)
        } else {
            None
        }),
{
    if width == 0 {
        None
    } else if width - 1 <= len {
        Some(len - (width - 1))
    } else {
        None
    }
}

} // verus!
