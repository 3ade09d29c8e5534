//! Routes as chains of merges: what a route costs when it is built piece by
//! piece, and which chains spell a text.

use crate::dictionary::{CandidateView, DictionaryView};
use crate::route_connector::{
    lemma_merge_len, pads, separates, spaces, trims, ConnectorView, Scheme,
};
use crate::text_encoder::matches_at;
use vstd::prelude::*;

verus! {

/// One link of a chain: a code with its cost, and how many characters of the
/// text it types.
pub struct Piece {
    /// How many characters of the text the piece types.
    pub len: nat,
    /// The keystrokes of the piece.
    pub code: Seq<char>,
    /// What the code costs by itself.
    pub cost: nat,
}

/// The piece that a dictionary candidate makes.
pub open spec fn piece_of(cand: CandidateView) -> Piece {
    Piece { len: cand.word.len(), code: cand.code, cost: cand.cost }
}

/// The piece that types the character at `at` as its own code, at no cost of
/// its own.
pub open spec fn own_piece(text: Seq<char>, at: int) -> Piece {
    Piece { len: 1, code: seq![text[at]], cost: 0 }
}

/// How many characters of the text a chain types.
pub open spec fn span(pieces: Seq<Piece>) -> nat
    decreases pieces.len(),
{
    if pieces.len() == 0 {
        0
    } else {
        span(pieces.drop_last()) + pieces.last().len
    }
}

/// The sum of the costs of the codes of a chain.
pub open spec fn code_sum(pieces: Seq<Piece>) -> nat
    decreases pieces.len(),
{
    if pieces.len() == 0 {
        0
    } else {
        code_sum(pieces.drop_last()) + pieces.last().cost
    }
}

/// The route of a chain: the empty route merged with each piece in turn.
pub open spec fn chain(cv: ConnectorView, pieces: Seq<Piece>) -> (Seq<char>, nat)
    decreases pieces.len(),
{
    if pieces.len() == 0 {
        (Seq::empty(), 0)
    } else {
        let before = chain(cv, pieces.drop_last());
        cv.merge(before.0, before.1, pieces.last().code, pieces.last().cost)
    }
}

/// What the junction of a prefix and a suffix costs: the pairs that the
/// merge looks up, the pair of a space that it takes away counted against.
pub open spec fn junction_cost(cv: ConnectorView, s1: Seq<char>, s2: Seq<char>) -> int {
    match cv.scheme {
        Scheme::Separator => {
            if s1.len() == 0 {
                0
            } else if separates(s1, s2) {
                cv.gap_cost(s1.last(), ' ', s2[0]) as int
            } else {
                cv.pair_cost(s1.last(), s2[0]) as int
            }
        },
        Scheme::Concatenation => {
            if s1.len() == 0 {
                0
            } else {
                cv.pair_cost(s1.last(), s2[0]) as int
            }
        },
        Scheme::Overflow => {
            let pad: int = if pads(s2) {
                cv.pair_cost(s2.last(), ' ') as int
            } else {
                0
            };
            if s1.len() == 0 {
                pad
            } else {
                let turn: int = if trims(s1, s2) {
                    -(cv.pair_cost(s1[s1.len() - 2], ' ') as int)
                } else if spaces(s1, s2) {
                    cv.pair_cost(s1.last(), ' ') as int
                } else {
                    0
                };
                pad + turn + cv.pair_cost(cv.overflow_prefix(s1, 0, s2).0.last(), s2[0])
            }
        },
    }
}

/// The sum of the junction costs along a chain.
pub open spec fn junction_sum(cv: ConnectorView, pieces: Seq<Piece>) -> int
    decreases pieces.len(),
{
    if pieces.len() == 0 {
        0
    } else {
        junction_sum(cv, pieces.drop_last()) + junction_cost(
            cv,
            chain(cv, pieces.drop_last()).0,
            pieces.last().code,
        )
    }
}

/// What the trailing space of a route has cost: the pair that it closes.
pub open spec fn tail_cost(cv: ConnectorView, route: Seq<char>) -> nat {
    if route.len() >= 2 && route.last() == ' ' {
        cv.pair_cost(route[route.len() - 2], ' ')
    } else {
        0
    }
}

/// Every piece has a code, and its cost covers the trailing space of the
/// code, if it has one.
pub open spec fn pieces_sound(cv: ConnectorView, pieces: Seq<Piece>) -> bool {
    forall|k: int|
        0 <= k < pieces.len() ==> (#[trigger] pieces[k]).code.len() > 0 && pieces[k].cost
            >= tail_cost(cv, pieces[k].code)
}

/// A merge costs the two costs it joins and the junction between them,
/// provided that an empty prefix costs nothing and that the prefix has paid
/// for the trailing space that the merge may take away.
pub proof fn lemma_merge_cost(cv: ConnectorView, s1: Seq<char>, t1: nat, s2: Seq<char>, t2: nat)
    requires
        s2.len() > 0,
        s1.len() == 0 ==> t1 == 0,
        t1 >= tail_cost(cv, s1),
        t2 >= tail_cost(cv, s2),
    ensures
        cv.merge(s1, t1, s2, t2).1 == t1 + t2 + junction_cost(cv, s1, s2),
        cv.merge(s1, t1, s2, t2).1 >= tail_cost(cv, cv.merge(s1, t1, s2, t2).0),
{
    let merged = cv.merge(s1, t1, s2, t2);
    let tail = cv.overflow_suffix(s2, t2);
    let head = cv.overflow_prefix(s1, t1, s2);
    assert(cv.overflow_prefix(s1, 0, s2).0 == head.0);
    match cv.scheme {
        Scheme::Separator => {},
        Scheme::Concatenation => {},
        Scheme::Overflow => {
            if s1.len() > 0 {
                if trims(s1, s2) {
                    assert(tail_cost(cv, s1) == cv.pair_cost(s1[s1.len() - 2], ' '));
                    assert(head.1 == t1 - cv.pair_cost(s1[s1.len() - 2], ' '));
                }
                assert(merged.1 == head.1 + tail.1 + cv.pair_cost(head.0.last(), s2[0]));
            }
        },
    }
    assert(merged.1 == t1 + t2 + junction_cost(cv, s1, s2));
    if merged.0.len() >= 2 && merged.0.last() == ' ' {
        let n = merged.0.len();
        match cv.scheme {
            Scheme::Separator => {
                if s1.len() > 0 && separates(s1, s2) {
                    assert(merged.0 =~= s1.push(' ') + s2);
                }
                if s2.len() >= 2 {
                    assert(merged.0[n - 2] == s2[s2.len() - 2]);
                } else if s1.len() > 0 {
                    assert(merged.0[n - 2] == s1.last());
                }
            },
            Scheme::Concatenation => {
                if s2.len() >= 2 {
                    assert(merged.0[n - 2] == s2[s2.len() - 2]);
                } else if s1.len() > 0 {
                    assert(merged.0[n - 2] == s1.last());
                }
            },
            Scheme::Overflow => {
                if tail.0.len() >= 2 {
                    assert(merged.0[n - 2] == tail.0[tail.0.len() - 2]);
                } else if s1.len() > 0 {
                    assert(merged.0[n - 2] == head.0.last());
                }
            },
        }
    }
}

/// A chain of sound pieces costs the sum of its codes and of its junctions:
/// nothing else enters the cost.
pub proof fn lemma_chain_cost(cv: ConnectorView, pieces: Seq<Piece>)
    requires
        pieces_sound(cv, pieces),
    ensures
        chain(cv, pieces).1 == code_sum(pieces) + junction_sum(cv, pieces),
        chain(cv, pieces).1 >= tail_cost(cv, chain(cv, pieces).0),
        chain(cv, pieces).0.len() == 0 ==> chain(cv, pieces).1 == 0,
    decreases pieces.len(),
{
    if pieces.len() > 0 {
        let rest = pieces.drop_last();
        assert forall|k: int| 0 <= k < rest.len() implies (#[trigger] rest[k]).code.len() > 0
            && rest[k].cost >= tail_cost(cv, rest[k].code) by {
            assert(rest[k] == pieces[k]);
        }
        lemma_chain_cost(cv, rest);
        let before = chain(cv, rest);
        assert(pieces[pieces.len() - 1] == pieces.last());
        lemma_merge_cost(cv, before.0, before.1, pieces.last().code, pieces.last().cost);
        lemma_merge_len(cv, before.0, before.1, pieces.last().code, pieces.last().cost);
    }
}

/// Whether the dictionary has no word that stands in the text at `at`.
pub open spec fn uncovered(dict: DictionaryView, text: Seq<char>, at: int) -> bool {
    forall|cand: CandidateView| #[trigger] dict.lists(cand) ==> !matches_at(text, at, cand.word)
}

/// Whether a piece is a candidate of the dictionary whose word stands in the
/// text at `at`.
pub open spec fn offered(dict: DictionaryView, text: Seq<char>, at: int, piece: Piece) -> bool {
    exists|cand: CandidateView|
        #[trigger] dict.lists(cand) && matches_at(text, at, cand.word) && piece == piece_of(cand)
}

/// Whether a piece may stand at `at`: it is offered there, or nothing is
/// offered there and the piece types the character as its own code.
pub open spec fn fits(dict: DictionaryView, text: Seq<char>, at: int, piece: Piece) -> bool {
    &&& 0 <= at
    &&& at + piece.len <= text.len()
    &&& piece.len > 0
    &&& offered(dict, text, at, piece) || (uncovered(dict, text, at) && piece == own_piece(
        text,
        at,
    ))
}

/// Whether a chain spells the start of a text: each piece fits where the
/// pieces before it end.
pub open spec fn spells(dict: DictionaryView, text: Seq<char>, pieces: Seq<Piece>) -> bool
    decreases pieces.len(),
{
    pieces.len() == 0 || (spells(dict, text, pieces.drop_last()) && fits(
        dict,
        text,
        span(pieces.drop_last()) as int,
        pieces.last(),
    ))
}

} // verus!
