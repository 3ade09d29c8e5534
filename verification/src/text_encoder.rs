//! The route synthesizer: one pass over the text, which offers the buffer
//! every dictionary word that stands at each position, and the character
//! itself where none was offered.

use crate::dictionary::{candidate_views, Candidate, CandidateView, CompiledDictionary, DictionaryView};
use crate::route_buffer::{
    highest, lemma_advance_bound, lemma_connect_code_bound, lemma_highest, BufferView, RouteBuffer,
    RouteError,
};
use crate::route_connector::JUNCTION_COST_MAX;
use vstd::prelude::*;

verus! {

/// Whether `word` stands in `text` at position `at`.
pub open spec fn matches_at(text: Seq<char>, at: int, word: Seq<char>) -> bool {
    0 <= at && at + word.len() <= text.len() && text.subrange(at, at + word.len()) == word
}

/// The buffer after the candidates of a list were offered at position `at`,
/// first candidate first: each whose word stands there is connected.
pub open spec fn feed(buf: BufferView, text: Seq<char>, at: int, group: Seq<CandidateView>) -> BufferView
    decreases group.len(),
{
    if group.len() == 0 {
        buf
    } else {
        let fed = feed(buf, text, at, group.drop_last());
        let cand = group.last();
        if matches_at(text, at, cand.word) {
            fed.connect_code(cand.word.len(), cand.code, cand.cost)
        } else {
            fed
        }
    }
}

/// The buffer after the fallback: where nothing was connected at the current
/// position, the character at `at` is connected as its own code, at no cost
/// of its own.
pub open spec fn fall_back(buf: BufferView, text: Seq<char>, at: int) -> BufferView {
    if buf.connected {
        buf
    } else {
        buf.connect_code(1, seq![text[at]], 0)
    }
}

/// The buffer after position `at` was handled: every candidate under the
/// character there was offered, then the fallback, and the scan moved on.
pub open spec fn step(buf: BufferView, dict: DictionaryView, text: Seq<char>, at: int) -> BufferView {
    fall_back(feed(buf, text, at, dict.candidates(text[at])), text, at).advance()
}

/// The buffer after the first `upto` positions of the text were handled.
pub open spec fn scan(buf: BufferView, dict: DictionaryView, text: Seq<char>, upto: nat) -> BufferView
    decreases upto,
{
    if upto == 0 {
        buf
    } else {
        step(scan(buf, dict, text, (upto - 1) as nat), dict, text, upto - 1)
    }
}

/// The route for a text, or why there is none.
pub open spec fn encoding(buf: BufferView, dict: DictionaryView, text: Seq<char>) -> Result<
    (Seq<char>, nat),
    RouteError,
> {
    scan(buf, dict, text, text.len()).finalize()
}

/// Whether a route given as values is the route that was to be given, or
/// fails as it was to fail.
pub open spec fn agrees(
    route: Result<(Vec<char>, u128), RouteError>,
    with: Result<(Seq<char>, nat), RouteError>,
) -> bool {
    match route {
        Ok(found) => with == Ok::<(Seq<char>, nat), RouteError>((found.0@, found.1 as nat)),
        Err(e) => with == Err::<(Seq<char>, nat), RouteError>(e),
    }
}

/// Two runs on the same text, with dictionaries of the same content and
/// buffers of the same content, give the same keystrokes at the same cost,
/// or fail alike; and they leave buffers of the same content.
pub proof fn lemma_runs_agree(
    text: Seq<char>,
    dict_a: DictionaryView,
    dict_b: DictionaryView,
    buffer_a: BufferView,
    buffer_b: BufferView,
    route_a: Result<(Vec<char>, u128), RouteError>,
    route_b: Result<(Vec<char>, u128), RouteError>,
)
    requires
        dict_a == dict_b,
        buffer_a == buffer_b,
        agrees(route_a, encoding(buffer_a, dict_a, text)),
        agrees(route_b, encoding(buffer_b, dict_b, text)),
    ensures
        scan(buffer_a, dict_a, text, text.len()) == scan(buffer_b, dict_b, text, text.len()),
        match (route_a, route_b) {
            (Ok(a), Ok(b)) => a.0@ == b.0@ && a.1 == b.1,
            (Err(e), Err(f)) => e == f,
            _ => false,
        },
{
}

/// The most that one connection can add to a cost.
pub open spec fn step_cost(dict: DictionaryView) -> nat {
    dict.max_cost + JUNCTION_COST_MAX as nat
}

/// The most that the connections at one position can add to a cost: one for
/// each candidate under a character, and one for the fallback.
pub open spec fn position_cost(dict: DictionaryView) -> nat {
    (dict.max_group_len + 1) * step_cost(dict)
}

/// A bound on every cost that a scan of `len` positions can reach.
pub open spec fn scan_budget(buf: BufferView, dict: DictionaryView, len: nat) -> nat {
    highest(buf.slots) + len * position_cost(dict)
}

/// Whether `word` stands in `text` at position `at`.
pub fn stands_at(text: &Vec<char>, at: usize, word: &Vec<char>) -> (stands: bool)
    ensures
        stands == matches_at(text@, at as int, word@),
{
    if at > text.len() || word.len() > text.len() - at {
        return false;
    }
    let mut i: usize = 0;
    while i < word.len()
        invariant
            at + word@.len() <= text@.len() <= usize::MAX,
            i <= word@.len(),
            text@.subrange(at as int, at + i) == word@.take(i as int),
        decreases word@.len() - i,
    {
        if text[at + i] != word[i] {
            proof {
                if text@.subrange(at as int, at + word@.len()) == word@ {
                    assert(text@.subrange(at as int, at + word@.len())[i as int] == word@[i as int]);
                }
            }
            return false;
        }
        i = i + 1;
        assert(text@.subrange(at as int, at + i) =~= word@.take(i as int));
    }
    assert(word@.take(i as int) =~= word@);
    true
}

/// Whether the costs of a scan of `text_len` positions stay within what a
/// cost can hold.
pub fn within_budget(text_len: usize, dict: &CompiledDictionary, buffer: &RouteBuffer) -> (ok: bool)
    ensures
        ok == (scan_budget(buffer@, dict@, text_len as nat) <= u128::MAX),
{
    let peak: u128 = buffer.peak_cost();
    if text_len == 0 {
        assert(scan_budget(buffer@, dict@, 0) == peak) by (nonlinear_arith)
            requires
                scan_budget(buffer@, dict@, 0) == peak + 0 * position_cost(dict@),
        ;
        return true;
    }
    let len: u128 = text_len as u128;
    let ghost per = position_cost(dict@);
    let ghost one = step_cost(dict@);
    let ghost many = dict@.max_group_len + 1;
    assert(per >= one && (per > u128::MAX ==> len * per > u128::MAX)) by (nonlinear_arith)
        requires
            per == many * one,
            many >= 1,
            len >= 1,
    ;
    match dict.max_cost().checked_add(JUNCTION_COST_MAX) {
        None => false,
        Some(step) => match (dict.max_group_len() as u128 + 1).checked_mul(step) {
            None => false,
            Some(position) => match len.checked_mul(position) {
                None => false,
                Some(all) => match peak.checked_add(all) {
                    None => false,
                    Some(_) => true,
                },
            },
        },
    }
}

/// Finds the cheapest route for a text.
///
/// At every position, in order, each candidate that the dictionary lists
/// under the character there and whose word stands there is connected: all
/// of them, not the longest only. Where none was connected, the character
/// is connected as its own code. Then the buffer moves on. After the last
/// position the buffer gives the route and its cost.
pub fn encode(text: &Vec<char>, dict: &CompiledDictionary, buffer: &mut RouteBuffer) -> (route:
    Result<(Vec<char>, u128), RouteError>)
    requires
        dict.wf(),
        old(buffer).wf(),
        scan_budget(old(buffer)@, dict@, text@.len()) <= u128::MAX,
    ensures
        final(buffer).wf(),
        final(buffer)@ == scan(old(buffer)@, dict@, text@, text@.len()),
        final(buffer)@.slots.len() == old(buffer)@.slots.len(),
        agrees(route, encoding(old(buffer)@, dict@, text@)),
{
    let ghost base = highest(buffer@.slots);
    let ghost per = position_cost(dict@);
    let ghost one = step_cost(dict@);
    let max_cost: u128 = dict.max_cost();
    proof {
        dict.lemma_wf();
        buffer.lemma_wf();
        lemma_highest(buffer@.slots);
        assert(base + 0 * per == base) by (nonlinear_arith);
    }
    let mut i: usize = 0;
    while i < text.len()
        invariant
            dict.wf(),
            dict@.wf(),
            buffer.wf(),
            buffer@.wf(),
            i <= text@.len(),
            base == highest(old(buffer)@.slots),
            per == position_cost(dict@),
            one == step_cost(dict@),
            max_cost == dict@.max_cost,
            base + text@.len() * per <= u128::MAX,
            buffer@ == scan(old(buffer)@, dict@, text@, i as nat),
            buffer@.slots.len() == old(buffer)@.slots.len(),
            buffer@.cost_bounded(base + i * per),
        decreases text@.len() - i,
    {
        let ghost before = buffer@;
        let ghost low: int = base + i * per;
        let c: char = text[i];
        proof {
            assert(low + per <= base + text@.len() * per) by (nonlinear_arith)
                requires
                    low == base + i * per,
                    i < text@.len(),
                    per >= 0,
            ;
            assert(per == dict@.max_group_len * one + one) by (nonlinear_arith)
                requires
                    per == (dict@.max_group_len + 1) * one,
            ;
        }
        let ghost group: Seq<CandidateView> = dict@.candidates(c);
        let ghost mut offered: nat = 0;
        match dict.lookup(c) {
            None => {
                assert(group =~= Seq::<CandidateView>::empty());
            },
            Some(list) => {
                let mut j: usize = 0;
                proof {
                    assert(group == candidate_views(list@));
                    assert(group.take(0) =~= Seq::<CandidateView>::empty());
                    assert(low + 0 * one == low) by (nonlinear_arith);
                    if list@.len() > 0 {
                        assert(dict@.groups[c][0].wf());
                    }
                }
                while j < list.len()
                    invariant
                        i < text@.len(),
                        c == text@[i as int],
                        dict@.wf(),
                        dict@.groups.contains_key(c),
                        group == dict@.groups[c],
                        group == candidate_views(list@),
                        list@.len() <= dict@.max_group_len,
                        j <= list@.len(),
                        buffer.wf(),
                        buffer@.wf(),
                        buffer@.slots.len() == old(buffer)@.slots.len(),
                        one == step_cost(dict@),
                        low + dict@.max_group_len * one + one <= u128::MAX,
                        buffer@ == feed(before, text@, i as int, group.take(j as int)),
                        buffer@.cost_bounded(low + j * one),
                    decreases list@.len() - j,
                {
                    let cand: &Candidate = &list[j];
                    let ghost fed = buffer@;
                    proof {
                        assert(group.take(j + 1).drop_last() =~= group.take(j as int));
                        assert(group.take(j + 1).last() == cand@);
                        assert(dict@.groups[c][j as int] == cand@);
                        assert(low + (j + 1) * one == low + j * one + one) by (nonlinear_arith);
                        assert(j * one <= dict@.max_group_len * one) by (nonlinear_arith)
                            requires
                                j <= dict@.max_group_len,
                                one >= 0,
                        ;
                        lemma_connect_code_bound(
                            fed,
                            cand@.word.len(),
                            cand@.code,
                            cand@.cost,
                            low + j * one,
                        );
                    }
                    if stands_at(text, i, &cand.word) {
                        assert(buffer@.live().1 <= low + j * one);
                        buffer.connect_code(cand.word.len(), &cand.code, cand.cost);
                    }
                    j = j + 1;
                }
                proof {
                    assert(group.take(j as int) =~= group);
                    offered = j as nat;
                }
            },
        }
        proof {
            assert(buffer@ == feed(before, text@, i as int, group));
            assert(offered <= dict@.max_group_len);
            assert(offered * one <= dict@.max_group_len * one) by (nonlinear_arith)
                requires
                    offered <= dict@.max_group_len,
                    one >= 0,
            ;
            if offered == 0 {
                assert(low + offered * one == low) by (nonlinear_arith)
                    requires
                        offered == 0,
                ;
            }
            lemma_connect_code_bound(buffer@, 1, seq![c], 0, low + offered * one);
        }
        if !buffer.is_connected() {
            let mut own: Vec<char> = Vec::new();
            own.push(c);
            assert(own@ =~= seq![c]);
            assert(buffer@.live().1 <= low + offered * one);
            buffer.connect_code(1, &own, 0);
        }
        proof {
            lemma_advance_bound(buffer@, low + per);
            assert(base + (i + 1) * per == low + per) by (nonlinear_arith)
                requires
                    low == base + i * per,
            ;
        }
        buffer.next();
        proof {
            buffer.lemma_wf();
        }
        i = i + 1;
    }
    buffer.get_global_best_route()
}

} // verus!
