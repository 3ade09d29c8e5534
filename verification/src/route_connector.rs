//! The cost model: what a keystroke sequence costs, and how two routes are
//! joined under each junction scheme.

use crate::chars::{append_chars, copy_chars};
use crate::timing::{note_pair, round_cost, round_to_cost, TimingTable, UnknownPairs, PAIR_COST_MAX};
use vstd::prelude::*;

verus! {

/// The cost, in fine units, that a key pair absent from the table gets unless
/// another one is chosen: one and a half second-equivalents.
pub const DEFAULT_FALLBACK: u32 = 1_500_000;

/// The most that one merge can add to the two costs it joins.
pub const JUNCTION_COST_MAX: u128 = 1_288_491;

/// How two adjacent codes combine.
#[derive(Clone, Copy, Debug, PartialEq, Eq, Structural)]
pub enum Scheme {
    /// A space separates a letter from a following letter or digit.
    Separator,
    /// Codes are joined as they are.
    Concatenation,
    /// Shape and phonetic codes: short phonetic codes are completed by a
    /// space, which following punctuation takes away again.
    Overflow,
}

/// The scheme that a number stands for: 0, 1 and 2 are the only numbers that
/// stand for one.
pub open spec fn scheme_of_code(code: int) -> Option<Scheme> {
    if code == 0 {
        Some(Scheme::Separator)
    } else if code == 1 {
        Some(Scheme::Concatenation)
    } else if code == 2 {
        Some(Scheme::Overflow)
    } else {
        None
    }
}

impl Scheme {
    /// The scheme with the given number, if there is one.
    pub fn from_code(code: usize) -> (scheme: Option<Scheme>)
        ensures
            scheme == scheme_of_code(code as int),
    {
        if code == 0 {
            Some(Scheme::Separator)
        } else if code == 1 {
            Some(Scheme::Concatenation)
        } else if code == 2 {
            Some(Scheme::Overflow)
        } else {
            None
        }
    }

    /// The number of the scheme.
    pub fn code(&self) -> (code: usize)
        ensures
            scheme_of_code(code as int) == Some(*self),
    {
        match self {
            Scheme::Separator => 0,
            Scheme::Concatenation => 1,
            Scheme::Overflow => 2,
        }
    }
}

/// An ASCII letter.
pub open spec fn letter_class(c: char) -> bool {
    ('a' <= c && c <= 'z') || ('A' <= c && c <= 'Z')
}

/// An ASCII digit.
pub open spec fn number_class(c: char) -> bool {
    '0' <= c && c <= '9'
}

/// A letter that writes a shape element: one of `a i o u v`, in either case.
pub open spec fn shape_class(c: char) -> bool {
    c == 'a' || c == 'i' || c == 'o' || c == 'u' || c == 'v' || c == 'A' || c == 'I' || c == 'O'
        || c == 'U' || c == 'V'
}

/// A letter that writes a phonetic element: any letter that is no shape
/// letter.
pub open spec fn phonetic_class(c: char) -> bool {
    letter_class(c) && !shape_class(c)
}

/// Whether a character is an ASCII letter.
pub fn is_letter(c: char) -> (yes: bool)
    ensures
        yes == letter_class(c),
{
    ('a' <= c && c <= 'z') || ('A' <= c && c <= 'Z')
}

/// Whether a character is an ASCII digit.
pub fn is_number(c: char) -> (yes: bool)
    ensures
        yes == number_class(c),
{
    '0' <= c && c <= '9'
}

/// Whether a character is a shape letter.
pub fn is_shape(c: char) -> (yes: bool)
    ensures
        yes == shape_class(c),
{
    c == 'a' || c == 'i' || c == 'o' || c == 'u' || c == 'v' || c == 'A' || c == 'I' || c == 'O'
        || c == 'U' || c == 'V'
}

/// Whether a character is a phonetic letter.
pub fn is_phonetic(c: char) -> (yes: bool)
    ensures
        yes == phonetic_class(c),
{
    is_letter(c) && !is_shape(c)
}

/// Scheme `Separator`: a space goes between prefix and suffix.
pub open spec fn separates(s1: Seq<char>, s2: Seq<char>) -> bool {
    s1.len() > 0 && s2.len() > 0 && letter_class(s1.last()) && (letter_class(s2[0])
        || number_class(s2[0]))
}

/// Scheme `Overflow`: the suffix is completed by a trailing space.
pub open spec fn pads(s2: Seq<char>) -> bool {
    0 < s2.len() < 4 && phonetic_class(s2.last())
}

/// Scheme `Overflow`: the prefix loses its trailing space.
pub open spec fn trims(s1: Seq<char>, s2: Seq<char>) -> bool {
    s1.len() > 1 && s2.len() > 0 && s1.last() == ' ' && s2[0] != ' ' && !letter_class(s2[0])
        && !number_class(s2[0])
}

/// Scheme `Overflow`: the prefix gets a trailing space.
pub open spec fn spaces(s1: Seq<char>, s2: Seq<char>) -> bool {
    s1.len() > 0 && s2.len() > 0 && letter_class(s1.last()) && (shape_class(s2[0])
        || number_class(s2[0]))
}

/// What remains of a cost after another is taken from it: never below zero.
pub open spec fn cost_less(t: nat, p: nat) -> nat {
    if t >= p {
        (t - p) as nat
    } else {
        0
    }
}

/// The mathematical content of a connector: the timing table, the cost of an
/// unknown pair, the scheme, and the unknown pairs met so far.
pub struct ConnectorView {
    /// The cost of each known pair, in fine units.
    pub table: Map<(char, char), u32>,
    /// The cost of every other pair, in fine units.
    pub fallback: u32,
    /// How two adjacent codes combine.
    pub scheme: Scheme,
    /// The pairs that were looked up and not found, each once, in the order
    /// in which they were first met.
    pub unknown: Seq<(char, char)>,
}

impl ConnectorView {
    /// The cost of one pair in fine units: the table's, or the fallback.
    pub open spec fn pair_fine(self, a: char, b: char) -> nat {
        if self.table.contains_key((a, b)) {
            self.table[(a, b)] as nat
        } else {
            self.fallback as nat
        }
    }

    /// The cost of one pair in hundredths.
    pub open spec fn pair_cost(self, a: char, b: char) -> nat {
        round_cost(self.pair_fine(a, b))
    }

    /// The cost in hundredths of three keys in a row: both pairs are summed
    /// in fine units and rounded once.
    pub open spec fn gap_cost(self, a: char, b: char, c: char) -> nat {
        round_cost(self.pair_fine(a, b) + self.pair_fine(b, c))
    }

    /// The sum, in fine units, over every adjacent pair of a sequence.
    pub open spec fn fine_sum(self, s: Seq<char>) -> nat
        decreases s.len(),
    {
        if s.len() < 2 {
            0
        } else {
            self.fine_sum(s.drop_last()) + self.pair_fine(s[s.len() - 2], s[s.len() - 1])
        }
    }

    /// The cost of a sequence in hundredths: the sum over its adjacent pairs,
    /// rounded once.
    pub open spec fn sequence_cost(self, s: Seq<char>) -> nat {
        round_cost(self.fine_sum(s))
    }

    /// The connector after one lookup: a pair that the table lacks is
    /// recorded as unknown.
    pub open spec fn note(self, a: char, b: char) -> ConnectorView {
        if self.table.contains_key((a, b)) {
            self
        } else {
            ConnectorView { unknown: note_pair(self.unknown, a, b), ..self }
        }
    }

    /// The connector after the lookups of every adjacent pair of a sequence,
    /// first pair first.
    pub open spec fn note_sequence(self, s: Seq<char>) -> ConnectorView
        decreases s.len(),
    {
        if s.len() < 2 {
            self
        } else {
            self.note_sequence(s.drop_last()).note(s[s.len() - 2], s[s.len() - 1])
        }
    }

    /// Scheme `Separator`: the merged route.
    pub open spec fn merge_separator(self, s1: Seq<char>, t1: nat, s2: Seq<char>, t2: nat) -> (
        Seq<char>,
        nat,
    ) {
        if s1.len() == 0 {
            (s2, t2)
        } else if separates(s1, s2) {
            (s1.push(' ') + s2, t1 + t2 + self.gap_cost(s1.last(), ' ', s2[0]))
        } else {
            (s1 + s2, t1 + t2 + self.pair_cost(s1.last(), s2[0]))
        }
    }

    /// Scheme `Concatenation`: the merged route.
    pub open spec fn merge_concatenation(
        self,
        s1: Seq<char>,
        t1: nat,
        s2: Seq<char>,
        t2: nat,
    ) -> (Seq<char>, nat) {
        if s1.len() == 0 {
            (s2, t2)
        } else {
            (s1 + s2, t1 + t2 + self.pair_cost(s1.last(), s2[0]))
        }
    }

    /// Scheme `Overflow`: the suffix as it enters the route.
    pub open spec fn overflow_suffix(self, s2: Seq<char>, t2: nat) -> (Seq<char>, nat) {
        if pads(s2) {
            (s2.push(' '), t2 + self.pair_cost(s2.last(), ' '))
        } else {
            (s2, t2)
        }
    }

    /// Scheme `Overflow`: the prefix as it meets the suffix.
    pub open spec fn overflow_prefix(self, s1: Seq<char>, t1: nat, s2: Seq<char>) -> (
        Seq<char>,
        nat,
    ) {
        if trims(s1, s2) {
            (s1.drop_last(), cost_less(t1, self.pair_cost(s1[s1.len() - 2], ' ')))
        } else if spaces(s1, s2) {
            (s1.push(' '), t1 + self.pair_cost(s1.last(), ' '))
        } else {
            (s1, t1)
        }
    }

    /// Scheme `Overflow`: the merged route.
    pub open spec fn merge_overflow(self, s1: Seq<char>, t1: nat, s2: Seq<char>, t2: nat) -> (
        Seq<char>,
        nat,
    ) {
        let tail = self.overflow_suffix(s2, t2);
        if s1.len() == 0 {
            tail
        } else {
            let head = self.overflow_prefix(s1, t1, s2);
            (head.0 + tail.0, head.1 + tail.1 + self.pair_cost(head.0.last(), s2[0]))
        }
    }

    /// The route that joins a prefix route `(s1, t1)` and a suffix route
    /// `(s2, t2)` under the connector's scheme.
    pub open spec fn merge(self, s1: Seq<char>, t1: nat, s2: Seq<char>, t2: nat) -> (
        Seq<char>,
        nat,
    ) {
        match self.scheme {
            Scheme::Separator => self.merge_separator(s1, t1, s2, t2),
            Scheme::Concatenation => self.merge_concatenation(s1, t1, s2, t2),
            Scheme::Overflow => self.merge_overflow(s1, t1, s2, t2),
        }
    }

    /// The connector after the lookups that one merge makes.
    pub open spec fn merge_note(self, s1: Seq<char>, s2: Seq<char>) -> ConnectorView {
        match self.scheme {
            Scheme::Separator => {
                if s1.len() == 0 {
                    self
                } else if separates(s1, s2) {
                    self.note(s1.last(), ' ').note(' ', s2[0])
                } else {
                    self.note(s1.last(), s2[0])
                }
            },
            Scheme::Concatenation => {
                if s1.len() == 0 {
                    self
                } else {
                    self.note(s1.last(), s2[0])
                }
            },
            Scheme::Overflow => {
                let c1 = if pads(s2) {
                    self.note(s2.last(), ' ')
                } else {
                    self
                };
                if s1.len() == 0 {
                    c1
                } else {
                    let c2 = if trims(s1, s2) {
                        c1.note(s1[s1.len() - 2], ' ')
                    } else if spaces(s1, s2) {
                        c1.note(s1.last(), ' ')
                    } else {
                        c1
                    };
                    c2.note(self.overflow_prefix(s1, 0, s2).0.last(), s2[0])
                }
            },
        }
    }
}

/// The lines that report a list of unknown pairs: for each pair, its two keys.
pub open spec fn unknown_lines(pairs: Seq<(char, char)>) -> Seq<Seq<char>> {
    Seq::new(pairs.len(), |i: int| seq![pairs[i].0, pairs[i].1])
}

/// A pair never costs more than `PAIR_COST_MAX`, nor three keys in a row more
/// than twice that.
pub proof fn lemma_pair_cost_bound(cv: ConnectorView, a: char, b: char, c: char)
    ensures
        cv.pair_cost(a, b) <= PAIR_COST_MAX,
        cv.gap_cost(a, b, c) <= 2 * PAIR_COST_MAX,
{
}

/// The cost of a sequence of two keys is the cost of the pair, and that of
/// three keys the cost of the gap they span.
pub proof fn lemma_short_sequence_cost(cv: ConnectorView, a: char, b: char, c: char)
    ensures
        cv.sequence_cost(seq![a, b]) == cv.pair_cost(a, b),
        cv.sequence_cost(seq![a, b, c]) == cv.gap_cost(a, b, c),
        cv.note_sequence(seq![a, b]) == cv.note(a, b),
        cv.note_sequence(seq![a, b, c]) == cv.note(a, b).note(b, c),
{
    let two = seq![a, b];
    let three = seq![a, b, c];
    assert(two.drop_last() =~= seq![a]);
    assert(three.drop_last() =~= two);
    reveal_with_fuel(ConnectorView::fine_sum, 4);
    reveal_with_fuel(ConnectorView::note_sequence, 4);
}

/// A merge adds at most `JUNCTION_COST_MAX` to the two costs it joins.
pub proof fn lemma_merge_cost_bound(
    cv: ConnectorView,
    s1: Seq<char>,
    t1: nat,
    s2: Seq<char>,
    t2: nat,
)
    ensures
        cv.merge(s1, t1, s2, t2).1 <= t1 + t2 + JUNCTION_COST_MAX,
{
    lemma_pair_cost_bound(cv, s1.last(), ' ', s2[0]);
    lemma_pair_cost_bound(cv, s1.last(), s2[0], ' ');
    lemma_pair_cost_bound(cv, s2.last(), ' ', ' ');
    lemma_pair_cost_bound(cv, s1[s1.len() - 2], ' ', ' ');
    lemma_pair_cost_bound(cv, cv.overflow_prefix(s1, t1, s2).0.last(), s2[0], ' ');
}

/// Whether two connectors cost alike: they have the same table, the same
/// cost for unknown pairs and the same scheme.
pub open spec fn same_costs(a: ConnectorView, b: ConnectorView) -> bool {
    a.table == b.table && a.fallback == b.fallback && a.scheme == b.scheme
}

/// What a merge returns does not depend on the unknown pairs met before, and
/// a merge leaves table, fallback and scheme as they are.
pub proof fn lemma_merge_same_costs(
    a: ConnectorView,
    b: ConnectorView,
    s1: Seq<char>,
    t1: nat,
    s2: Seq<char>,
    t2: nat,
)
    requires
        same_costs(a, b),
    ensures
        a.merge(s1, t1, s2, t2) == b.merge(s1, t1, s2, t2),
        same_costs(a.merge_note(s1, s2), b),
{
}

/// A merged route is not empty, and not shorter than its prefix.
pub proof fn lemma_merge_len(cv: ConnectorView, s1: Seq<char>, t1: nat, s2: Seq<char>, t2: nat)
    requires
        s2.len() > 0,
    ensures
        cv.merge(s1, t1, s2, t2).0.len() >= 1,
        cv.merge(s1, t1, s2, t2).0.len() >= s1.len(),
{
}

/// A merge looks at the last two keystrokes of its prefix only: what stands
/// before them is carried over as it is.
pub proof fn lemma_merge_carries(
    cv: ConnectorView,
    a: Seq<char>,
    b: Seq<char>,
    t1: nat,
    s2: Seq<char>,
    t2: nat,
)
    requires
        a.len() == 0 || b.len() >= 2,
        s2.len() > 0,
    ensures
        cv.merge(a + b, t1, s2, t2).0 == a + cv.merge(b, t1, s2, t2).0,
        cv.merge(a + b, t1, s2, t2).1 == cv.merge(b, t1, s2, t2).1,
        cv.merge_note(a + b, s2) == cv.merge_note(b, s2),
{
    let whole = a + b;
    if a.len() == 0 {
        assert(whole =~= b);
        assert(a + cv.merge(b, t1, s2, t2).0 =~= cv.merge(b, t1, s2, t2).0);
    } else {
        assert(whole.last() == b.last());
        assert(whole[whole.len() - 2] == b[b.len() - 2]);
        assert(whole.drop_last() =~= a + b.drop_last());
        assert(whole.push(' ') =~= a + b.push(' '));
        assert(b.drop_last().last() == b[b.len() - 2]);
        assert(whole.drop_last().last() == b[b.len() - 2]);
        let tail = cv.overflow_suffix(s2, t2).0;
        assert(whole + s2 =~= a + (b + s2));
        assert(whole.push(' ') + s2 =~= a + (b.push(' ') + s2));
        assert(whole + tail =~= a + (b + tail));
        assert(whole.push(' ') + tail =~= a + (b.push(' ') + tail));
        assert(whole.drop_last() + tail =~= a + (b.drop_last() + tail));
    }
}

/// Connectors that cost alike give every sequence the same cost.
pub proof fn lemma_same_costs_same_sum(a: ConnectorView, b: ConnectorView, s: Seq<char>)
    requires
        same_costs(a, b),
    ensures
        a.fine_sum(s) == b.fine_sum(s),
        a.sequence_cost(s) == b.sequence_cost(s),
    decreases s.len(),
{
    if s.len() >= 2 {
        lemma_same_costs_same_sum(a, b, s.drop_last());
    }
}

/// A sequence costs no less than its last pair.
pub proof fn lemma_sequence_covers_last(cv: ConnectorView, s: Seq<char>)
    requires
        s.len() >= 2,
    ensures
        cv.sequence_cost(s) >= cv.pair_cost(s[s.len() - 2], s[s.len() - 1]),
{
}

/// Lookups record unknown pairs and change nothing else.
pub proof fn lemma_note_sequence_keeps(cv: ConnectorView, s: Seq<char>)
    ensures
        cv.note_sequence(s).table == cv.table,
        cv.note_sequence(s).fallback == cv.fallback,
        cv.note_sequence(s).scheme == cv.scheme,
    decreases s.len(),
{
    if s.len() >= 2 {
        lemma_note_sequence_keeps(cv, s.drop_last());
    }
}

/// The cost model: a timing table, a junction scheme, and the unknown pairs
/// that lookups have met.
pub struct RouteConnector {
    time_map: TimingTable,
    unknown_keys: UnknownPairs,
    scheme: Scheme,
    fallback: u32,
}

impl View for RouteConnector {
    type V = ConnectorView;

    closed spec fn view(&self) -> ConnectorView {
        ConnectorView {
            table: self.time_map@,
            fallback: self.fallback,
            scheme: self.scheme,
            unknown: self.unknown_keys@,
        }
    }
}

impl RouteConnector {
    /// The record of unknown pairs is consistent.
    pub closed spec fn wf(&self) -> bool {
        self.unknown_keys.wf()
    }

    /// A connector over a timing table, with the default cost for unknown
    /// pairs and none met yet.
    pub fn new(time_map: TimingTable, scheme: Scheme) -> (connector: Self)
        ensures
            connector.wf(),
            connector@ == (ConnectorView {
                table: time_map@,
                fallback: DEFAULT_FALLBACK,
                scheme: scheme,
                unknown: Seq::<(char, char)>::empty(),
            }),
    {
        RouteConnector {
            time_map,
            unknown_keys: UnknownPairs::new(),
            scheme,
            fallback: DEFAULT_FALLBACK,
        }
    }

    /// A connector that costs every unknown pair at `fallback` fine units.
    pub fn with_fallback(time_map: TimingTable, scheme: Scheme, fallback: u32) -> (connector: Self)
        ensures
            connector.wf(),
            connector@ == (ConnectorView {
                table: time_map@,
                fallback: fallback,
                scheme: scheme,
                unknown: Seq::<(char, char)>::empty(),
            }),
    {
        RouteConnector { time_map, unknown_keys: UnknownPairs::new(), scheme, fallback }
    }

    /// A copy of the connector, unknown pairs included.
    pub fn clone(&self) -> (copy: Self)
        requires
            self.wf(),
        ensures
            copy.wf(),
            copy@ == self@,
    {
        RouteConnector {
            time_map: self.time_map.clone(),
            unknown_keys: self.unknown_keys.clone(),
            scheme: self.scheme,
            fallback: self.fallback,
        }
    }

    /// The junction scheme.
    pub fn scheme(&self) -> (scheme: Scheme)
        ensures
            scheme == self@.scheme,
    {
        self.scheme
    }

    /// How many distinct unknown pairs the lookups have met.
    pub fn unknown_keys_count(&self) -> (n: usize)
        ensures
            n == self@.unknown.len(),
    {
        self.unknown_keys.len()
    }

    /// One line per unknown pair, in the order in which they were met: the
    /// pair's two keys.
    pub fn report_unknown_keys(&self) -> (lines: Vec<Vec<char>>)
        ensures
            lines@.len() == self@.unknown.len(),
            forall|i: int|
                0 <= i < lines@.len() ==> (#[trigger] lines@[i])@ == unknown_lines(
                    self@.unknown,
                )[i],
    {
        let pairs = self.unknown_keys.pairs();
        let mut lines: Vec<Vec<char>> = Vec::new();
        let mut i: usize = 0;
        while i < pairs.len()
            invariant
                pairs@ == self@.unknown,
                i <= pairs@.len(),
                lines@.len() == i,
                forall|j: int|
                    0 <= j < i ==> (#[trigger] lines@[j])@ == unknown_lines(self@.unknown)[j],
            decreases pairs@.len() - i,
        {
            let mut line: Vec<char> = Vec::new();
            line.push(pairs[i].0);
            line.push(pairs[i].1);
            assert(line@ =~= seq![pairs@[i as int].0, pairs@[i as int].1]);
            lines.push(line);
            i = i + 1;
        }
        lines
    }

    /// Looks one pair up: its cost in fine units, the fallback for an unknown
    /// pair, which is recorded.
    fn lookup(&mut self, a: char, b: char) -> (fine: u32)
        requires
            old(self).wf(),
        ensures
            final(self).wf(),
            fine == old(self)@.pair_fine(a, b),
            final(self)@ == old(self)@.note(a, b),
    {
        match self.time_map.get(a, b) {
            Some(fine) => fine,
            None => {
                self.unknown_keys.note(a, b);
                self.fallback
            },
        }
    }

    /// The cost of one pair, in hundredths.
    fn pair_time(&mut self, a: char, b: char) -> (cost: u128)
        requires
            old(self).wf(),
        ensures
            final(self).wf(),
            cost == old(self)@.pair_cost(a, b),
            cost <= PAIR_COST_MAX,
            final(self)@ == old(self)@.note(a, b),
    {
        let fine: u32 = self.lookup(a, b);
        round_to_cost(fine as u128)
    }

    /// The cost of three keys in a row, in hundredths.
    fn gap_time(&mut self, a: char, b: char, c: char) -> (cost: u128)
        requires
            old(self).wf(),
        ensures
            final(self).wf(),
            cost == old(self)@.gap_cost(a, b, c),
            cost <= 2 * PAIR_COST_MAX,
            final(self)@ == old(self)@.note(a, b).note(b, c),
    {
        let first: u32 = self.lookup(a, b);
        let second: u32 = self.lookup(b, c);
        round_to_cost(first as u128 + second as u128)
    }

    /// The cost of a keystroke sequence: the table's cost of every adjacent
    /// pair (the fallback for a pair it lacks, which is recorded as unknown),
    /// summed and rounded to hundredths.
    pub fn get_time(&mut self, chars: &Vec<char>) -> (cost: u128)
        requires
            old(self).wf(),
        ensures
            final(self).wf(),
            cost == old(self)@.sequence_cost(chars@),
            final(self)@ == old(self)@.note_sequence(chars@),
    {
        if chars.len() < 2 {
            return 0;
        }
        let mut sum: u128 = 0;
        let mut i: usize = 1;
        assert(chars@.take(1).len() == 1);
        while i < chars.len()
            invariant
                self.wf(),
                1 <= i <= chars@.len(),
                sum == old(self)@.fine_sum(chars@.take(i as int)),
                sum <= (i - 1) * u32::MAX,
                self@ == old(self)@.note_sequence(chars@.take(i as int)),
            decreases chars@.len() - i,
        {
            proof {
                lemma_note_sequence_keeps(old(self)@, chars@.take(i as int));
                assert(chars@.take(i + 1).drop_last() =~= chars@.take(i as int));
            }
            let fine: u32 = self.lookup(chars[i - 1], chars[i]);
            sum = sum + fine as u128;
            i = i + 1;
        }
        assert(chars@.take(i as int) =~= chars@);
        round_to_cost(sum)
    }

    /// Scheme `Separator`.
    fn connect_separator(&mut self, s1: &Vec<char>, s2: &Vec<char>, t1: u128, t2: u128) -> (route:
        (Vec<char>, u128))
        requires
            old(self).wf(),
            old(self)@.scheme == Scheme::Separator,
            s2@.len() > 0,
            t1 + t2 + JUNCTION_COST_MAX <= u128::MAX,
        ensures
            final(self).wf(),
            (route.0@, route.1 as nat) == old(self)@.merge(s1@, t1 as nat, s2@, t2 as nat),
            final(self)@ == old(self)@.merge_note(s1@, s2@),
    {
        if s1.len() == 0 {
            return (copy_chars(s2), t2);
        }
        let last: char = s1[s1.len() - 1];
        let first: char = s2[0];
        let mut code = copy_chars(s1);
        let junction: u128 = if is_letter(last) && (is_letter(first) || is_number(first)) {
            code.push(' ');
            self.gap_time(last, ' ', first)
        } else {
            self.pair_time(last, first)
        };
        append_chars(&mut code, s2, 0);
        assert(s2@.skip(0) =~= s2@);
        (code, t1 + t2 + junction)
    }

    /// Scheme `Concatenation`.
    fn connect_concatenation(
        &mut self,
        s1: &Vec<char>,
        s2: &Vec<char>,
        t1: u128,
        t2: u128,
    ) -> (route: (Vec<char>, u128))
        requires
            old(self).wf(),
            old(self)@.scheme == Scheme::Concatenation,
            s2@.len() > 0,
            t1 + t2 + JUNCTION_COST_MAX <= u128::MAX,
        ensures
            final(self).wf(),
            (route.0@, route.1 as nat) == old(self)@.merge(s1@, t1 as nat, s2@, t2 as nat),
            final(self)@ == old(self)@.merge_note(s1@, s2@),
    {
        if s1.len() == 0 {
            return (copy_chars(s2), t2);
        }
        let junction: u128 = self.pair_time(s1[s1.len() - 1], s2[0]);
        let mut code = copy_chars(s1);
        append_chars(&mut code, s2, 0);
        assert(s2@.skip(0) =~= s2@);
        (code, t1 + t2 + junction)
    }

    /// Scheme `Overflow`.
    fn connect_overflow(&mut self, s1: &Vec<char>, s2: &Vec<char>, t1: u128, t2: u128) -> (route: (
        Vec<char>,
        u128,
    ))
        requires
            old(self).wf(),
            old(self)@.scheme == Scheme::Overflow,
            s2@.len() > 0,
            t1 + t2 + JUNCTION_COST_MAX <= u128::MAX,
        ensures
            final(self).wf(),
            (route.0@, route.1 as nat) == old(self)@.merge(s1@, t1 as nat, s2@, t2 as nat),
            final(self)@ == old(self)@.merge_note(s1@, s2@),
    {
        let first: char = s2[0];
        let tail_last: char = s2[s2.len() - 1];
        let mut tail = copy_chars(s2);
        let mut tail_cost: u128 = t2;
        if is_phonetic(tail_last) && s2.len() < 4 {
            tail.push(' ');
            let pad: u128 = self.pair_time(tail_last, ' ');
            tail_cost = tail_cost + pad;
        }
        if s1.len() == 0 {
            return (tail, tail_cost);
        }
        let last: char = s1[s1.len() - 1];
        let mut code = copy_chars(s1);
        let mut head_cost: u128 = t1;
        if s1.len() > 1 && last == ' ' && first != ' ' && !is_letter(first) && !is_number(first) {
            code.pop();
            let gone: u128 = self.pair_time(s1[s1.len() - 2], ' ');
            head_cost = if head_cost >= gone {
                head_cost - gone
            } else {
                0
            };
            assert(code@ =~= s1@.drop_last());
        } else if is_letter(last) && (is_shape(first) || is_number(first)) {
            code.push(' ');
            let space: u128 = self.pair_time(last, ' ');
            head_cost = head_cost + space;
        }
        let junction: u128 = self.pair_time(code[code.len() - 1], first);
        append_chars(&mut code, &tail, 0);
        assert(tail@.skip(0) =~= tail@);
        (code, head_cost + tail_cost + junction)
    }

    /// Joins a prefix route and a suffix route under the connector's scheme.
    ///
    /// The cost is never the plain sum of the two: the pair that becomes
    /// adjacent at the boundary is costed, and a scheme may put a space at
    /// the boundary or take one away. Every pair looked up that the table
    /// lacks is recorded as unknown.
    pub fn connect(&mut self, s1: &Vec<char>, s2: &Vec<char>, t1: u128, t2: u128) -> (route: (
        Vec<char>,
        u128,
    ))
        requires
            old(self).wf(),
            s2@.len() > 0,
            t1 + t2 + JUNCTION_COST_MAX <= u128::MAX,
        ensures
            final(self).wf(),
            (route.0@, route.1 as nat) == old(self)@.merge(s1@, t1 as nat, s2@, t2 as nat),
            final(self)@ == old(self)@.merge_note(s1@, s2@),
    {
        match self.scheme {
            Scheme::Separator => self.connect_separator(s1, s2, t1, t2),
            Scheme::Concatenation => self.connect_concatenation(s1, s2, t1, t2),
            Scheme::Overflow => self.connect_overflow(s1, s2, t1, t2),
        }
    }
}

} // verus!
