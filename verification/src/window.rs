//! The window is not seen in the route: a scan from a fresh buffer gives
//! the route that the same recurrence gives with a slot for every position
//! of the text and no route ever cut.

use crate::chain::{own_piece, piece_of, Piece};
use crate::dictionary::CandidateView;
use crate::progress::{
    inv, lemma_apart, lemma_feed, lemma_route_exists, lemma_scan, lemma_settle, lemma_slot_on,
    lemma_start, lemma_step, reach, slot_of, Run,
};
use crate::route_buffer::{displaces, BufferView, RouteError};
use crate::route_connector::{
    lemma_merge_carries, lemma_merge_len, lemma_merge_same_costs, ConnectorView,
};
use crate::text_encoder::{encoding, fall_back, feed, matches_at, scan, step};
use vstd::arithmetic::div_mod::{lemma_mod_add_multiples_vanish, lemma_mod_bound};
use vstd::prelude::*;

verus! {

/// The slots of the wide recurrence after a piece was connected at `at`:
/// where a route ends at `at`, it is joined with the piece, and the merged
/// route goes to the slot where the piece ends if it displaces what the slot
/// holds.
pub open spec fn wide_connect(
    wide: Seq<(Seq<char>, nat)>,
    cv: ConnectorView,
    at: int,
    piece: Piece,
) -> Seq<(Seq<char>, nat)> {
    let merged = cv.merge(wide[at].0, wide[at].1, piece.code, piece.cost);
    if (at == 0 || wide[at].0.len() > 0) && at + piece.len < wide.len() && displaces(
        merged,
        wide[at + piece.len],
    ) {
        wide.update(at + piece.len, merged)
    } else {
        wide
    }
}

/// The slots after the candidates of a list were offered at `at`.
pub open spec fn wide_feed(
    wide: Seq<(Seq<char>, nat)>,
    cv: ConnectorView,
    text: Seq<char>,
    at: int,
    group: Seq<CandidateView>,
) -> Seq<(Seq<char>, nat)>
    decreases group.len(),
{
    if group.len() == 0 {
        wide
    } else {
        let fed = wide_feed(wide, cv, text, at, group.drop_last());
        if matches_at(text, at, group.last().word) {
            wide_connect(fed, cv, at, piece_of(group.last()))
        } else {
            fed
        }
    }
}

/// Whether the word of some candidate of a list stands in the text at `at`.
pub open spec fn stands_any(text: Seq<char>, at: int, group: Seq<CandidateView>) -> bool {
    exists|k: int| 0 <= k < group.len() && matches_at(text, at, (#[trigger] group[k]).word)
}

/// The slots after position `at` was handled.
pub open spec fn wide_step(wide: Seq<(Seq<char>, nat)>, run: Run, at: int) -> Seq<
    (Seq<char>, nat),
> {
    let group = run.dict.candidates(run.text[at]);
    let fed = wide_feed(wide, run.costs, run.text, at, group);
    if stands_any(run.text, at, group) {
        fed
    } else {
        wide_connect(fed, run.costs, at, own_piece(run.text, at))
    }
}

/// The slots after the first `upto` positions were handled: one slot for
/// each position of the text and one for its end, all empty at first.
pub open spec fn wide_scan(run: Run, upto: nat) -> Seq<(Seq<char>, nat)>
    decreases upto,
{
    if upto == 0 {
        Seq::new(run.text.len() + 1, |p: int| (Seq::<char>::empty(), 0nat))
    } else {
        wide_step(wide_scan(run, (upto - 1) as nat), run, upto - 1)
    }
}

/// The route that the wide recurrence gives for the whole text.
pub open spec fn wide_route(run: Run) -> (Seq<char>, nat) {
    wide_scan(run, run.text.len())[run.text.len() as int]
}

/// Whether the window shows, for the positions it covers, what the wide
/// recurrence holds there, the settled start of the route put back in front;
/// and the wide recurrence holds nothing further on.
pub open spec fn mirrors(run: Run, buf: BufferView, wide: Seq<(Seq<char>, nat)>, i: int) -> bool {
    &&& wide.len() == run.text.len() + 1
    &&& wide[0] == (Seq::<char>::empty(), 0nat)
    &&& forall|p: int|
        i <= p < i + run.window && p <= run.text.len() ==> {
            let held = #[trigger] slot_of(buf, p);
            &&& (held.0.len() == 0) == (wide[p].0.len() == 0)
            &&& held.0.len() > 0 ==> wide[p] == (buf.settled + held.0, held.1)
        }
    &&& forall|p: int|
        i + buf.distance < p <= run.text.len() ==> (#[trigger] wide[p]).0.len() == 0
}

/// Cutting the head route leaves the window a mirror.
proof fn lemma_settle_mirrors(run: Run, buf: BufferView, wide: Seq<(Seq<char>, nat)>, i: int)
    requires
        run.wf(),
        inv(run, buf, i),
        mirrors(run, buf, wide, i),
    ensures
        mirrors(run, buf.settle(), wide, i),
{
    let w = run.window as int;
    let cut = buf.settle();
    if buf.settles() {
        let at = buf.cut();
        let live = buf.live();
        lemma_mod_bound(i, w);
        assert(slot_of(buf, i) == live);
        assert(live.0.take(at) + live.0.skip(at) =~= live.0);
        assert(cut.settled + live.0.skip(at) =~= buf.settled + live.0);
        assert forall|p: int| i <= p < i + w && p <= run.text.len() implies {
            let held = #[trigger] slot_of(cut, p);
            &&& (held.0.len() == 0) == (wide[p].0.len() == 0)
            &&& held.0.len() > 0 ==> wide[p] == (cut.settled + held.0, held.1)
        } by {
            lemma_mod_bound(p, w);
            if p == i {
                assert(slot_of(cut, p) == (live.0.skip(at), live.1));
            } else {
                if p % w == i % w {
                    lemma_apart(p, i, w);
                }
                assert(slot_of(cut, p) == slot_of(buf, p));
                assert(slot_of(buf, p).0.len() == 0);
            }
        }
    }
}

/// Joining the route that ends at the current position with a piece does in
/// the window what it does in the wide recurrence.
proof fn lemma_join_mirrors(
    run: Run,
    buf: BufferView,
    wide: Seq<(Seq<char>, nat)>,
    i: int,
    piece: Piece,
)
    requires
        run.wf(),
        inv(run, buf, i),
        mirrors(run, buf, wide, i),
        i < run.text.len(),
        reach(buf, i),
        i + piece.len <= run.text.len(),
        0 < piece.len < run.window,
        piece.code.len() > 0,
    ensures
        mirrors(
            run,
            buf.join(piece.len, piece.code, piece.cost),
            wide_connect(wide, run.costs, i, piece),
            i,
        ),
{
    let w = run.window as int;
    let next = buf.join(piece.len, piece.code, piece.cost);
    let after = wide_connect(wide, run.costs, i, piece);
    let live = buf.live();
    let goal = i + piece.len;
    let at = buf.target(piece.len);
    let merged = buf.connector.merge(live.0, live.1, piece.code, piece.cost);
    let merged_wide = run.costs.merge(wide[i].0, wide[i].1, piece.code, piece.cost);
    lemma_slot_on(i, piece.len as int, w);
    lemma_mod_bound(i, w);
    assert(slot_of(buf, i) == live);
    assert(slot_of(buf, goal) == buf.slots[at]);
    assert(wide[i] == (buf.settled + live.0, live.1)) by {
        if live.0.len() == 0 {
            assert(buf.settled + live.0 =~= Seq::<char>::empty());
        }
    }
    assert(buf.settled.len() == 0 || live.0.len() >= 2) by {
        if buf.settled.len() > 0 {
            assert(slot_of(buf, i).0.len() > 0);
        }
    }
    lemma_merge_same_costs(buf.connector, run.costs, live.0, live.1, piece.code, piece.cost);
    lemma_merge_carries(run.costs, buf.settled, live.0, live.1, piece.code, piece.cost);
    lemma_merge_len(run.costs, live.0, live.1, piece.code, piece.cost);
    assert(merged_wide == (buf.settled + merged.0, merged.1));
    assert(displaces(merged_wide, wide[goal]) == displaces(merged, buf.slots[at]));
    assert forall|p: int| i <= p < i + w implies #[trigger] slot_of(next, p) == (if p == goal
        && displaces(merged, buf.slots[at]) {
        merged
    } else {
        slot_of(buf, p)
    }) by {
        lemma_mod_bound(p, w);
        if p % w == goal % w {
            lemma_apart(p, goal, w);
        }
    }
    assert forall|p: int| i <= p < i + w && p <= run.text.len() implies {
        let held = #[trigger] slot_of(next, p);
        &&& (held.0.len() == 0) == (after[p].0.len() == 0)
        &&& held.0.len() > 0 ==> after[p] == (next.settled + held.0, held.1)
    } by {
        let before = slot_of(buf, p);
        assert((before.0.len() == 0) == (wide[p].0.len() == 0));
    }
    assert forall|p: int| i + next.distance < p <= run.text.len() implies (#[trigger] after[p]).0.len()
        == 0 by {
        assert(wide[p].0.len() == 0);
    }
}

/// Connecting a piece does in the window what it does in the wide
/// recurrence.
proof fn lemma_connect_mirrors(
    run: Run,
    buf: BufferView,
    wide: Seq<(Seq<char>, nat)>,
    i: int,
    piece: Piece,
)
    requires
        run.wf(),
        inv(run, buf, i),
        mirrors(run, buf, wide, i),
        i < run.text.len(),
        i + piece.len <= run.text.len(),
        0 < piece.len < run.window,
        piece.code.len() > 0,
    ensures
        mirrors(
            run,
            buf.connect_code(piece.len, piece.code, piece.cost),
            wide_connect(wide, run.costs, i, piece),
            i,
        ),
{
    let w = run.window as int;
    lemma_mod_bound(i, w);
    assert(slot_of(buf, i) == buf.live());
    assert(reach(buf, i) == buf.reachable());
    let next = buf.connect_code(piece.len, piece.code, piece.cost);
    if buf.reachable() {
        lemma_settle(run, buf, i);
        lemma_settle_mirrors(run, buf, wide, i);
        lemma_join_mirrors(run, buf.settle(), wide, i, piece);
    } else {
        assert(i > 0 && wide[i].0.len() == 0);
        assert forall|p: int| #[trigger] slot_of(next, p) == slot_of(buf, p) by {}
    }
}

/// Offering candidates does in the window what it does in the wide
/// recurrence.
proof fn lemma_feed_mirrors(
    run: Run,
    buf: BufferView,
    wide: Seq<(Seq<char>, nat)>,
    i: int,
    group: Seq<CandidateView>,
)
    requires
        run.wf(),
        inv(run, buf, i),
        mirrors(run, buf, wide, i),
        i < run.text.len(),
        forall|k: int| 0 <= k < group.len() ==> run.dict.lists(#[trigger] group[k]),
    ensures
        mirrors(
            run,
            feed(buf, run.text, i, group),
            wide_feed(wide, run.costs, run.text, i, group),
            i,
        ),
    decreases group.len(),
{
    if group.len() > 0 {
        let rest = group.drop_last();
        let cand = group.last();
        assert forall|k: int| 0 <= k < rest.len() implies run.dict.lists(#[trigger] rest[k]) by {
            assert(rest[k] == group[k]);
        }
        lemma_feed(run, buf, i, rest);
        lemma_feed_mirrors(run, buf, wide, i, rest);
        assert(group[group.len() - 1] == cand);
        assert(run.dict.lists(cand));
        let held = choose|x: int| run.dict.holds(cand.word[0], x, cand);
        assert(cand == run.dict.groups[cand.word[0]][held]);
        if matches_at(run.text, i, cand.word) {
            lemma_connect_mirrors(
                run,
                feed(buf, run.text, i, rest),
                wide_feed(wide, run.costs, run.text, i, rest),
                i,
                piece_of(cand),
            );
        }
    }
}

/// Handling one position does in the window what it does in the wide
/// recurrence.
proof fn lemma_step_mirrors(run: Run, buf: BufferView, wide: Seq<(Seq<char>, nat)>, i: int)
    requires
        run.wf(),
        inv(run, buf, i),
        !buf.connected,
        mirrors(run, buf, wide, i),
        i < run.text.len(),
    ensures
        mirrors(run, step(buf, run.dict, run.text, i), wide_step(wide, run, i), i + 1),
{
    let w = run.window as int;
    let c = run.text[i];
    let group = run.dict.candidates(c);
    assert forall|k: int| 0 <= k < group.len() implies run.dict.lists(#[trigger] group[k]) by {
        assert(run.dict.groups[c][k].word[0] == c);
        assert(run.dict.holds(group[k].word[0], k, group[k]));
    }
    lemma_feed(run, buf, i, group);
    lemma_feed_mirrors(run, buf, wide, i, group);
    let fed = feed(buf, run.text, i, group);
    let fed_wide = wide_feed(wide, run.costs, run.text, i, group);
    let sure = fall_back(fed, run.text, i);
    let sure_wide = wide_step(wide, run, i);
    assert(fed.connected == stands_any(run.text, i, group));
    if !fed.connected {
        lemma_connect_mirrors(run, fed, fed_wide, i, own_piece(run.text, i));
    }
    assert(mirrors(run, sure, sure_wide, i));
    lemma_step(run, buf, i);
    let next = sure.advance();
    assert(next == step(buf, run.dict, run.text, i));
    lemma_mod_bound(i, w);
    assert forall|p: int| i + 1 <= p < i + 1 + w && p <= run.text.len() implies {
        let held = #[trigger] slot_of(next, p);
        &&& (held.0.len() == 0) == (sure_wide[p].0.len() == 0)
        &&& held.0.len() > 0 ==> sure_wide[p] == (next.settled + held.0, held.1)
    } by {
        lemma_mod_bound(p, w);
        if p == i + w {
            lemma_slot_on(i, w, w);
            assert((i + w) % w == i % w) by {
                lemma_mod_add_multiples_vanish(i, w);
            }
            assert(slot_of(next, p).0.len() == 0);
            assert(sure_wide[p].0.len() == 0);
        } else {
            if p % w == i % w {
                lemma_apart(p, i, w);
            }
            assert(slot_of(next, p) == slot_of(sure, p));
        }
    }
    assert forall|p: int| i + 1 + next.distance < p <= run.text.len() implies (
    #[trigger] sure_wide[p]).0.len() == 0 by {}
}

/// A scan shows in its window what the wide recurrence holds.
proof fn lemma_scan_mirrors(run: Run, upto: nat)
    requires
        run.wf(),
        upto <= run.text.len(),
    ensures
        mirrors(
            run,
            scan(run.start(), run.dict, run.text, upto),
            wide_scan(run, upto),
            upto as int,
        ),
    decreases upto,
{
    if upto == 0 {
        lemma_start(run);
        let buf = run.start();
        let wide = wide_scan(run, 0);
        assert forall|p: int| 0 <= p < run.window && p <= run.text.len() implies {
            let held = #[trigger] slot_of(buf, p);
            &&& (held.0.len() == 0) == (wide[p].0.len() == 0)
            &&& held.0.len() > 0 ==> wide[p] == (buf.settled + held.0, held.1)
        } by {
            lemma_mod_bound(p, run.window as int);
        }
    } else {
        let before = (upto - 1) as nat;
        lemma_scan(run, before);
        lemma_scan_mirrors(run, before);
        lemma_step_mirrors(
            run,
            scan(run.start(), run.dict, run.text, before),
            wide_scan(run, before),
            before as int,
        );
    }
}

/// The window is not seen in the route: with room for two positions and for
/// every word that stands in the text, a scan from a fresh buffer gives the
/// route of the wide recurrence, whatever the size of the window and
/// wherever routes were cut.
pub proof fn lemma_window_is_unseen(run: Run)
    requires
        run.wf(),
    ensures
        encoding(run.start(), run.dict, run.text) == Ok::<(Seq<char>, nat), RouteError>(
            wide_route(run),
        ),
{
    let n = run.text.len() as int;
    lemma_route_exists(run);
    lemma_scan(run, run.text.len());
    lemma_scan_mirrors(run, run.text.len());
    let end = scan(run.start(), run.dict, run.text, run.text.len());
    lemma_mod_bound(n, run.window as int);
    assert(slot_of(end, n) == end.live());
    if end.live().0.len() == 0 {
        assert(end.settled + end.live().0 =~= Seq::<char>::empty());
    }
}

} // verus!
