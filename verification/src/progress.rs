//! What a scan from a fresh buffer keeps true, and what follows for the
//! route it gives: there always is one, and it is a chain of merges that
//! spells the text.

use crate::chain::{
    chain, code_sum, fits, junction_sum, lemma_chain_cost, offered, own_piece, piece_of,
    pieces_sound, span, spells, tail_cost, uncovered, Piece,
};
use crate::dict_loader::{
    dict_of, entries_valid, lemma_add_items_wf, lemma_compiled_costs, lemma_dict_of, CompileState,
};
use crate::dictionary::{CandidateView, DictionaryView};
use crate::entry::EntryView;
use crate::route_buffer::{displaces, BufferView, RouteError};
use crate::route_connector::{
    lemma_merge_carries, lemma_merge_len, lemma_merge_same_costs, lemma_sequence_covers_last,
    letter_class, number_class, phonetic_class, same_costs, shape_class, ConnectorView, Scheme,
};
use crate::text_encoder::{encoding, fall_back, feed, matches_at, scan, step};
use vstd::arithmetic::div_mod::{
    lemma_add_mod_noop_right, lemma_fundamental_div_mod, lemma_mod_bound, lemma_small_mod,
};
use vstd::prelude::*;

verus! {

/// One run of the synthesizer: a text, a dictionary, a cost model, and the
/// size of the window.
pub struct Run {
    /// The text to be typed.
    pub text: Seq<char>,
    /// The words that can be typed by a code.
    pub dict: DictionaryView,
    /// The cost model that the buffer starts with.
    pub costs: ConnectorView,
    /// How many slots the window has.
    pub window: nat,
}

impl Run {
    /// Every word of the dictionary that stands somewhere in the text is
    /// shorter than the window.
    pub open spec fn roomy(self) -> bool {
        forall|cand: CandidateView, at: int|
            #[trigger] self.dict.lists(cand) && #[trigger] matches_at(self.text, at, cand.word)
                ==> cand.word.len() < self.window
    }

    /// The dictionary is well formed, and the window has room for two
    /// positions and for every word that stands in the text.
    pub open spec fn wf(self) -> bool {
        &&& self.dict.wf()
        &&& self.window >= 2
        &&& self.roomy()
    }

    /// The buffer before the first position.
    pub open spec fn start(self) -> BufferView {
        BufferView::fresh(self.window, self.costs)
    }
}

/// A window with more slots than the longest word of the dictionary has
/// characters has room for every word.
pub proof fn lemma_wide_window_is_roomy(run: Run)
    requires
        run.dict.wf(),
        run.dict.max_word_len < run.window,
    ensures
        run.roomy(),
{
    assert forall|cand: CandidateView, at: int|
        #[trigger] run.dict.lists(cand) && #[trigger] matches_at(
            run.text,
            at,
            cand.word,
        ) implies cand.word.len() < run.window by {
        let x = choose|x: int| run.dict.holds(cand.word[0], x, cand);
        assert(cand == run.dict.groups[cand.word[0]][x]);
    }
}

/// The slot that holds the routes which end at text position `p`.
pub open spec fn slot_of(buf: BufferView, p: int) -> (Seq<char>, nat) {
    buf.slots[p % (buf.slots.len() as int)]
}

/// Whether a route is the chain of some pieces that spell the first `upto`
/// characters of the text.
pub open spec fn derived(run: Run, upto: int, route: (Seq<char>, nat)) -> bool {
    exists|pieces: Seq<Piece>|
        #[trigger] spells(run.dict, run.text, pieces) && span(pieces) == upto && chain(
            run.costs,
            pieces,
        ) == route
}

/// Whether the buffer holds a route that ends at position `p`.
pub open spec fn reach(buf: BufferView, p: int) -> bool {
    slot_of(buf, p).0.len() > 0 || p == 0
}

/// What holds of the buffer while the scan stands at position `i`.
pub open spec fn inv(run: Run, buf: BufferView, i: int) -> bool {
    &&& 0 <= i <= run.text.len()
    &&& buf.wf()
    &&& buf.slots.len() == run.window
    &&& buf.head == i % (run.window as int)
    &&& (buf.count == 0) == (i == 0)
    &&& same_costs(buf.connector, run.costs)
    &&& buf.distance < run.window
    &&& i + buf.distance <= run.text.len()
    &&& (i == 0 ==> buf.settled.len() == 0 && slot_of(buf, 0) == (Seq::<char>::empty(), 0nat))
    &&& forall|p: int|
        i + buf.distance < p < i + run.window ==> (#[trigger] slot_of(buf, p)).0.len() == 0
    &&& forall|p: int|
        i <= p <= i + buf.distance && (#[trigger] slot_of(buf, p)).0.len() > 0 ==> derived(
            run,
            p,
            (buf.settled + slot_of(buf, p).0, slot_of(buf, p).1),
        )
    &&& (buf.settled.len() > 0 ==> forall|p: int|
        i <= p < i + run.window && (#[trigger] slot_of(buf, p)).0.len() > 0 ==> slot_of(
            buf,
            p,
        ).0.len() >= 2)
    &&& exists|p: int| i <= p <= i + buf.distance && #[trigger] reach(buf, p)
    &&& (buf.connected && reach(buf, i) ==> exists|p: int|
        i < p <= i + buf.distance && (#[trigger] slot_of(buf, p)).0.len() > 0)
}

/// Two positions less than a window apart have different slots.
pub(crate) proof fn lemma_apart(p: int, q: int, w: int)
    requires
        w > 0,
        p % w == q % w,
        -w < p - q < w,
    ensures
        p == q,
{
    lemma_fundamental_div_mod(p, w);
    lemma_fundamental_div_mod(q, w);
    let d = p / w - q / w;
    assert(p - q == w * d) by (nonlinear_arith)
        requires
            p == w * (p / w) + p % w,
            q == w * (q / w) + q % w,
            p % w == q % w,
            d == p / w - q / w,
    ;
    assert(d == 0) by (nonlinear_arith)
        requires
            -w < w * d < w,
            w > 0,
    ;
}

/// The slot `l` positions on from the slot of position `i` is the slot of
/// position `i + l`.
pub(crate) proof fn lemma_slot_on(i: int, l: int, w: int)
    requires
        w > 0,
        0 <= i,
        0 <= l,
    ensures
        ((i % w) + l) % w == (i + l) % w,
        0 <= (i + l) % w < w,
{
    lemma_add_mod_noop_right(l, i, w);
    lemma_mod_bound(i + l, w);
}

/// The first position has the first slot, which holds the empty route of
/// the empty chain.
pub(crate) proof fn lemma_start(run: Run)
    requires
        run.wf(),
    ensures
        inv(run, run.start(), 0),
{
    let buf = run.start();
    let w = run.window as int;
    lemma_small_mod(0, run.window);
    assert forall|p: int| 0 < p < w implies (#[trigger] slot_of(buf, p)).0.len() == 0 by {
        lemma_mod_bound(p, w);
    }
    assert(reach(buf, 0));
    assert forall|p: int|
        0 <= p < 0 + run.window && (#[trigger] slot_of(buf, p)).0.len() > 0 implies slot_of(
        buf,
        p,
    ).0.len() >= 2 by {
        lemma_mod_bound(p, w);
    }
    assert forall|p: int|
        0 <= p <= 0 + buf.distance && (#[trigger] slot_of(buf, p)).0.len() > 0 implies derived(
        run,
        p,
        (buf.settled + slot_of(buf, p).0, slot_of(buf, p).1),
    ) by {
        lemma_mod_bound(p, w);
    }
}

/// Cutting the head route changes nothing of what holds.
pub(crate) proof fn lemma_settle(run: Run, buf: BufferView, i: int)
    requires
        run.wf(),
        inv(run, buf, i),
    ensures
        inv(run, buf.settle(), i),
        buf.settle().connected == buf.connected,
        reach(buf.settle(), i) == reach(buf, i),
{
    let w = run.window as int;
    let cut = buf.settle();
    if buf.settles() {
        let at = buf.cut();
        let live = buf.live();
        lemma_mod_bound(i, w);
        assert(slot_of(buf, i) == live);
        assert(i > 0);
        assert(live.0.take(at) + live.0.skip(at) =~= live.0);
        assert(cut.settled + cut.live().0 =~= buf.settled + live.0);
        assert forall|p: int| i <= p < i + w implies #[trigger] slot_of(cut, p) == (if p == i {
            (live.0.skip(at), live.1)
        } else {
            slot_of(buf, p)
        }) by {
            lemma_mod_bound(p, w);
            if p % w == i % w {
                lemma_apart(p, i, w);
            }
        }
        assert forall|p: int| i + cut.distance < p < i + w implies (#[trigger] slot_of(
            cut,
            p,
        )).0.len() == 0 by {
            assert(slot_of(buf, p).0.len() == 0);
        }
        assert forall|p: int|
            i <= p <= i + cut.distance && (#[trigger] slot_of(cut, p)).0.len() > 0 implies derived(
            run,
            p,
            (cut.settled + slot_of(cut, p).0, slot_of(cut, p).1),
        ) by {
            assert(p == i);
            assert(derived(run, i, (buf.settled + slot_of(buf, i).0, slot_of(buf, i).1)));
        }
        assert forall|p: int|
            i <= p < i + w && (#[trigger] slot_of(cut, p)).0.len() > 0 implies slot_of(
            cut,
            p,
        ).0.len() >= 2 by {
            if p != i {
                assert(slot_of(buf, p).0.len() == 0);
            }
        }
        assert(reach(cut, i));
        assert(reach(buf, i));
        if cut.connected && reach(cut, i) {
            let p = choose|p: int|
                i < p <= i + buf.distance && (#[trigger] slot_of(buf, p)).0.len() > 0;
            assert(false);
        }
    }
}

/// Joining the route that ends at the current position with a piece that
/// fits there keeps everything true, and leaves a route further on.
proof fn lemma_join(run: Run, buf: BufferView, i: int, piece: Piece)
    requires
        run.wf(),
        inv(run, buf, i),
        i < run.text.len(),
        reach(buf, i),
        fits(run.dict, run.text, i, piece),
        piece.len < run.window,
        piece.code.len() > 0,
    ensures
        inv(run, buf.join(piece.len, piece.code, piece.cost), i),
        buf.join(piece.len, piece.code, piece.cost).connected,
{
    let w = run.window as int;
    let next = buf.join(piece.len, piece.code, piece.cost);
    let live = buf.live();
    let merged = buf.connector.merge(live.0, live.1, piece.code, piece.cost);
    let at = buf.target(piece.len);
    let goal = i + piece.len;
    lemma_slot_on(i, piece.len as int, w);
    lemma_mod_bound(i, w);
    assert(at == goal % w);
    assert(slot_of(buf, i) == live);
    assert(slot_of(buf, goal) == buf.slots[at]);
    let full = (buf.settled + live.0, live.1);
    assert(derived(run, i, full)) by {
        if live.0.len() == 0 {
            let none = Seq::<Piece>::empty();
            assert(spells(run.dict, run.text, none));
            assert(full.0 =~= Seq::<char>::empty());
            assert(chain(run.costs, none) == full);
        }
    }
    let pieces0 = choose|pieces: Seq<Piece>|
        #[trigger] spells(run.dict, run.text, pieces) && span(pieces) == i && chain(
            run.costs,
            pieces,
        ) == full;
    let pieces1 = pieces0.push(piece);
    assert(pieces1.drop_last() =~= pieces0);
    assert(spells(run.dict, run.text, pieces1));
    assert(span(pieces1) == goal);
    lemma_merge_same_costs(buf.connector, run.costs, live.0, live.1, piece.code, piece.cost);
    assert(buf.settled.len() == 0 || live.0.len() >= 2) by {
        if buf.settled.len() > 0 {
            assert(slot_of(buf, i).0.len() > 0);
        }
    }
    lemma_merge_carries(run.costs, buf.settled, live.0, live.1, piece.code, piece.cost);
    lemma_merge_len(run.costs, live.0, live.1, piece.code, piece.cost);
    assert(chain(run.costs, pieces1) == (buf.settled + merged.0, merged.1));
    assert(derived(run, goal, (buf.settled + merged.0, merged.1)));
    assert forall|p: int| i <= p < i + w implies #[trigger] slot_of(next, p) == (if p == goal
        && displaces(merged, buf.slots[at]) {
        merged
    } else {
        slot_of(buf, p)
    }) by {
        lemma_mod_bound(p, w);
        if p % w == goal % w {
            lemma_apart(p, goal, w);
        }
    }
    assert(slot_of(next, goal).0.len() > 0);
    assert forall|p: int| i + next.distance < p < i + w implies (#[trigger] slot_of(
        next,
        p,
    )).0.len() == 0 by {
        assert(slot_of(buf, p).0.len() == 0);
    }
    assert forall|p: int|
        i <= p <= i + next.distance && (#[trigger] slot_of(next, p)).0.len() > 0 implies derived(
        run,
        p,
        (next.settled + slot_of(next, p).0, slot_of(next, p).1),
    ) by {
        if p == goal && displaces(merged, buf.slots[at]) {
        } else {
            assert(slot_of(next, p) == slot_of(buf, p));
            if p > i + buf.distance {
                assert(slot_of(buf, p).0.len() == 0);
            }
        }
    }
    if next.settled.len() > 0 {
        assert forall|p: int|
            i <= p < i + w && (#[trigger] slot_of(next, p)).0.len() > 0 implies slot_of(
            next,
            p,
        ).0.len() >= 2 by {
            if p == goal && displaces(merged, buf.slots[at]) {
            } else {
                assert(slot_of(next, p) == slot_of(buf, p));
            }
        }
    }
    assert(reach(next, goal));
    if i == 0 {
        assert(slot_of(next, 0) == slot_of(buf, 0));
    }
    assert(reach(next, i) == reach(buf, i)) by {
        assert(slot_of(next, i) == slot_of(buf, i));
    }
}

/// Connecting a piece that fits at the current position keeps everything
/// true.
proof fn lemma_connect(run: Run, buf: BufferView, i: int, piece: Piece)
    requires
        run.wf(),
        inv(run, buf, i),
        i < run.text.len(),
        fits(run.dict, run.text, i, piece),
        piece.len < run.window,
        piece.code.len() > 0,
    ensures
        inv(run, buf.connect_code(piece.len, piece.code, piece.cost), i),
        buf.connect_code(piece.len, piece.code, piece.cost).connected,
{
    let w = run.window as int;
    lemma_mod_bound(i, w);
    assert(slot_of(buf, i) == buf.live());
    assert(reach(buf, i) == buf.reachable());
    let next = buf.connect_code(piece.len, piece.code, piece.cost);
    if buf.reachable() {
        lemma_settle(run, buf, i);
        lemma_join(run, buf.settle(), i, piece);
    } else {
        assert forall|p: int| #[trigger] slot_of(next, p) == slot_of(buf, p) by {}
        let p = choose|p: int| i <= p <= i + buf.distance && #[trigger] reach(buf, p);
        assert(reach(next, p));
    }
}

/// A word that stands in the text at `at` starts with the character there.
proof fn lemma_first_char(text: Seq<char>, at: int, word: Seq<char>)
    requires
        word.len() > 0,
        matches_at(text, at, word),
    ensures
        word[0] == text[at],
        at < text.len(),
{
    assert(text.subrange(at, at + word.len())[0] == text[at]);
}

/// Offering candidates of the dictionary keeps everything true, and
/// something is connected just where it was before or one of the words
/// stands in the text.
pub(crate) proof fn lemma_feed(run: Run, buf: BufferView, i: int, group: Seq<CandidateView>)
    requires
        run.wf(),
        inv(run, buf, i),
        i < run.text.len(),
        forall|k: int| 0 <= k < group.len() ==> run.dict.lists(#[trigger] group[k]),
    ensures
        inv(run, feed(buf, run.text, i, group), i),
        feed(buf, run.text, i, group).connected == (buf.connected || exists|k: int|
            0 <= k < group.len() && matches_at(run.text, i, (#[trigger] group[k]).word)),
    decreases group.len(),
{
    if group.len() > 0 {
        let rest = group.drop_last();
        let cand = group.last();
        assert forall|k: int| 0 <= k < rest.len() implies run.dict.lists(#[trigger] rest[k]) by {
            assert(rest[k] == group[k]);
        }
        lemma_feed(run, buf, i, rest);
        let fed = feed(buf, run.text, i, rest);
        assert(group[group.len() - 1] == cand);
        assert(run.dict.lists(cand));
        let held = choose|x: int| run.dict.holds(cand.word[0], x, cand);
        assert(cand == run.dict.groups[cand.word[0]][held]);
        assert(cand.wf());
        if matches_at(run.text, i, cand.word) {
            assert(offered(run.dict, run.text, i, piece_of(cand)));
            lemma_connect(run, fed, i, piece_of(cand));
        }
        let after = feed(buf, run.text, i, group);
        if exists|k: int| 0 <= k < rest.len() && matches_at(run.text, i, (#[trigger] rest[k]).word) {
            let k = choose|k: int|
                0 <= k < rest.len() && matches_at(run.text, i, (#[trigger] rest[k]).word);
            assert(matches_at(run.text, i, group[k].word));
        }
        if exists|k: int|
            0 <= k < group.len() && matches_at(run.text, i, (#[trigger] group[k]).word) {
            let k = choose|k: int|
                0 <= k < group.len() && matches_at(run.text, i, (#[trigger] group[k]).word);
            if k < rest.len() {
                assert(matches_at(run.text, i, rest[k].word));
            }
        }
    }
}

/// Handling one position keeps everything true.
pub(crate) proof fn lemma_step(run: Run, buf: BufferView, i: int)
    requires
        run.wf(),
        inv(run, buf, i),
        !buf.connected,
        i < run.text.len(),
    ensures
        inv(run, step(buf, run.dict, run.text, i), i + 1),
        !step(buf, run.dict, run.text, i).connected,
{
    let w = run.window as int;
    let c = run.text[i];
    let group = run.dict.candidates(c);
    assert forall|k: int| 0 <= k < group.len() implies run.dict.lists(#[trigger] group[k]) by {
        assert(run.dict.groups[c][k].word[0] == c);
        assert(run.dict.holds(group[k].word[0], k, group[k]));
    }
    lemma_feed(run, buf, i, group);
    let fed = feed(buf, run.text, i, group);
    let sure = fall_back(fed, run.text, i);
    if !fed.connected {
        assert forall|cand: CandidateView| #[trigger] run.dict.lists(cand) implies !matches_at(
            run.text,
            i,
            cand.word,
        ) by {
            if matches_at(run.text, i, cand.word) {
                let x = choose|x: int| run.dict.holds(cand.word[0], x, cand);
                assert(cand == run.dict.groups[cand.word[0]][x]);
                lemma_first_char(run.text, i, cand.word);
                assert(group[x] == cand);
                assert(matches_at(run.text, i, group[x].word));
            }
        }
        assert(uncovered(run.dict, run.text, i));
        lemma_connect(run, fed, i, own_piece(run.text, i));
    }
    assert(inv(run, sure, i) && sure.connected);
    let next = sure.advance();
    lemma_slot_on(i, 1, w);
    lemma_mod_bound(i, w);
    assert forall|p: int| i < p <= i + w implies #[trigger] slot_of(next, p) == (if p == i + w {
        (Seq::<char>::empty(), 0nat)
    } else {
        slot_of(sure, p)
    }) by {
        lemma_mod_bound(p, w);
        if p == i + w {
            lemma_slot_on(i, w, w);
            lemma_add_mod_noop_right(i, w, w);
            assert(w % w == 0) by (nonlinear_arith)
                requires
                    w > 0,
            ;
        } else if p % w == i % w {
            lemma_apart(p, i, w);
        }
    }
    assert forall|p: int| i + 1 + next.distance < p < i + 1 + w implies (#[trigger] slot_of(
        next,
        p,
    )).0.len() == 0 by {
        if p < i + w {
            assert(slot_of(sure, p).0.len() == 0);
        }
    }
    assert forall|p: int|
        i + 1 <= p <= i + 1 + next.distance && (#[trigger] slot_of(next, p)).0.len()
            > 0 implies derived(
        run,
        p,
        (next.settled + slot_of(next, p).0, slot_of(next, p).1),
    ) by {
        assert(slot_of(next, p) == slot_of(sure, p));
        if p > i + sure.distance {
            assert(slot_of(sure, p).0.len() == 0);
        }
    }
    if next.settled.len() > 0 {
        assert forall|p: int|
            i + 1 <= p < i + 1 + w && (#[trigger] slot_of(next, p)).0.len() > 0 implies slot_of(
            next,
            p,
        ).0.len() >= 2 by {
            assert(slot_of(next, p) == slot_of(sure, p));
        }
    }
    assert(exists|p: int| i + 1 <= p <= i + 1 + next.distance && #[trigger] reach(next, p)) by {
        if reach(sure, i) {
            let p = choose|p: int|
                i < p <= i + sure.distance && (#[trigger] slot_of(sure, p)).0.len() > 0;
            assert(slot_of(next, p) == slot_of(sure, p));
            assert(reach(next, p));
        } else {
            let p = choose|p: int| i <= p <= i + sure.distance && #[trigger] reach(sure, p);
            assert(slot_of(next, p) == slot_of(sure, p));
            assert(reach(next, p));
        }
    }
}

/// A scan from a fresh buffer keeps everything true.
pub(crate) proof fn lemma_scan(run: Run, upto: nat)
    requires
        run.wf(),
        upto <= run.text.len(),
    ensures
        inv(run, scan(run.start(), run.dict, run.text, upto), upto as int),
        !scan(run.start(), run.dict, run.text, upto).connected,
    decreases upto,
{
    if upto == 0 {
        lemma_start(run);
    } else {
        lemma_scan(run, (upto - 1) as nat);
        lemma_step(run, scan(run.start(), run.dict, run.text, (upto - 1) as nat), upto - 1);
    }
}

/// A scan from a fresh buffer always ends with a route, whatever the text
/// and whatever the dictionary holds: where no word of the dictionary
/// stands, the character typed as itself carries the route on.
pub proof fn lemma_route_exists(run: Run)
    requires
        run.wf(),
    ensures
        encoding(run.start(), run.dict, run.text) is Ok,
{
    lemma_scan(run, run.text.len());
    let end = scan(run.start(), run.dict, run.text, run.text.len());
    let n = run.text.len() as int;
    lemma_mod_bound(n, run.window as int);
    let p = choose|p: int| n <= p <= n + end.distance && #[trigger] reach(end, p);
    assert(slot_of(end, n) == end.live());
}

/// The route of a scan from a fresh buffer is the chain of pieces that
/// spell the whole text: each piece is a word of the dictionary that stands
/// where the pieces before it end, or the character there typed as itself
/// where no word stands.
pub proof fn lemma_route_is_chain(run: Run)
    requires
        run.wf(),
    ensures
        encoding(run.start(), run.dict, run.text) is Ok,
        derived(run, run.text.len() as int, encoding(run.start(), run.dict, run.text)->Ok_0),
{
    lemma_route_exists(run);
    lemma_scan(run, run.text.len());
    let end = scan(run.start(), run.dict, run.text, run.text.len());
    let n = run.text.len() as int;
    lemma_mod_bound(n, run.window as int);
    assert(slot_of(end, n) == end.live());
    if end.live().0.len() == 0 {
        let none = Seq::<Piece>::empty();
        assert(spells(run.dict, run.text, none));
        assert(end.settled + end.live().0 =~= Seq::<char>::empty());
        assert(chain(run.costs, none) == (end.settled + end.live().0, end.live().1));
    }
}

/// Whether the cost of every candidate covers the trailing space of its
/// code, if it has one. This holds where each cost is what the cost model
/// gives the code.
pub open spec fn costs_sound(dict: DictionaryView, cv: ConnectorView) -> bool {
    forall|cand: CandidateView| #[trigger] dict.lists(cand) ==> cand.cost >= tail_cost(cv, cand.code)
}

/// The pieces of a chain that spells a text are sound where the costs of
/// the dictionary are.
proof fn lemma_spelling_sound(run: Run, pieces: Seq<Piece>)
    requires
        run.dict.wf(),
        costs_sound(run.dict, run.costs),
        spells(run.dict, run.text, pieces),
    ensures
        pieces_sound(run.costs, pieces),
    decreases pieces.len(),
{
    if pieces.len() > 0 {
        let rest = pieces.drop_last();
        let last = pieces.last();
        lemma_spelling_sound(run, rest);
        let at = span(rest) as int;
        if offered(run.dict, run.text, at, last) {
            let cand = choose|cand: CandidateView|
                #[trigger] run.dict.lists(cand) && matches_at(run.text, at, cand.word) && last
                    == piece_of(cand);
            let x = choose|x: int| run.dict.holds(cand.word[0], x, cand);
            assert(cand == run.dict.groups[cand.word[0]][x]);
        }
        assert forall|k: int| 0 <= k < pieces.len() implies (#[trigger] pieces[k]).code.len() > 0
            && pieces[k].cost >= tail_cost(run.costs, pieces[k].code) by {
            if k < rest.len() {
                assert(pieces[k] == rest[k]);
            }
        }
    }
}

/// The cost of the route of a scan from a fresh buffer is the sum of the
/// costs of the codes that make the route and of the junctions between
/// them, and nothing else.
pub proof fn lemma_route_cost_is_sum(run: Run)
    requires
        run.wf(),
        costs_sound(run.dict, run.costs),
    ensures
        encoding(run.start(), run.dict, run.text) is Ok,
        exists|pieces: Seq<Piece>|
            {
                let route = encoding(run.start(), run.dict, run.text)->Ok_0;
                &&& #[trigger] spells(run.dict, run.text, pieces)
                &&& span(pieces) == run.text.len()
                &&& chain(run.costs, pieces) == route
                &&& route.1 == code_sum(pieces) + junction_sum(run.costs, pieces)
            },
{
    lemma_route_is_chain(run);
    let route = encoding(run.start(), run.dict, run.text)->Ok_0;
    let pieces = choose|pieces: Seq<Piece>|
        #[trigger] spells(run.dict, run.text, pieces) && span(pieces) == run.text.len() as int
            && chain(run.costs, pieces) == route;
    lemma_spelling_sound(run, pieces);
    lemma_chain_cost(run.costs, pieces);
}

/// The costs of a dictionary that was compiled with a cost model are sound
/// for every cost model that costs alike.
pub proof fn lemma_compiled_costs_sound(connector: ConnectorView, entries: Seq<EntryView>)
    ensures
        costs_sound(dict_of(CompileState::start(connector).add_items(entries).kept), connector),
{
    let start = CompileState::start(connector);
    let kept = start.add_items(entries).kept;
    lemma_compiled_costs(start, entries, connector);
    lemma_dict_of(kept);
    let dict = dict_of(kept);
    assert forall|cand: CandidateView| #[trigger] dict.lists(cand) implies cand.cost >= tail_cost(
        connector,
        cand.code,
    ) by {
        let x = choose|x: int| dict.holds(cand.word[0], x, cand);
        assert(kept.contains(dict.groups[cand.word[0]][x]));
        let m = choose|m: int| 0 <= m < kept.len() && kept[m] == cand;
        assert(kept[m].cost == connector.sequence_cost(kept[m].code));
        if cand.code.len() >= 2 {
            lemma_sequence_covers_last(connector, cand.code);
        }
    }
}

/// With a dictionary that was compiled under the cost model of the run, the
/// cost of the route is the sum of the costs that the cost model gives the
/// codes of the route and of the junctions between them.
pub proof fn lemma_compiled_route_cost_is_sum(run: Run, entries: Seq<EntryView>)
    requires
        entries_valid(entries),
        run.dict == dict_of(CompileState::start(run.costs).add_items(entries).kept),
        run.window >= 2,
        run.roomy(),
    ensures
        encoding(run.start(), run.dict, run.text) is Ok,
        exists|pieces: Seq<Piece>|
            {
                let route = encoding(run.start(), run.dict, run.text)->Ok_0;
                &&& #[trigger] spells(run.dict, run.text, pieces)
                &&& span(pieces) == run.text.len()
                &&& chain(run.costs, pieces) == route
                &&& route.1 == code_sum(pieces) + junction_sum(run.costs, pieces)
            },
{
    let start = CompileState::start(run.costs);
    lemma_add_items_wf(start, entries);
    lemma_dict_of(start.add_items(entries).kept);
    lemma_compiled_costs_sound(run.costs, entries);
    lemma_route_cost_is_sum(run);
}

/// Whether the dictionary has no word that stands anywhere in the text.
pub open spec fn bare(dict: DictionaryView, text: Seq<char>) -> bool {
    forall|at: int| 0 <= at < text.len() ==> #[trigger] uncovered(dict, text, at)
}

/// A character that is neither a space nor a letter nor a digit.
pub open spec fn mark_class(c: char) -> bool {
    c != ' ' && !letter_class(c) && !number_class(c)
}

/// Whether a scheme leaves the characters of a text, each typed as itself,
/// as they are: no space that it puts in stays, and it takes away no space
/// of the text.
pub open spec fn plain(scheme: Scheme, text: Seq<char>) -> bool {
    match scheme {
        Scheme::Separator => forall|k: int|
            0 < k < text.len() ==> !(letter_class(#[trigger] text[k - 1]) && (letter_class(text[k])
                || number_class(text[k]))),
        Scheme::Concatenation => true,
        Scheme::Overflow => {
            &&& forall|k: int|
                0 <= k < text.len() && phonetic_class(#[trigger] text[k]) ==> k + 1 < text.len()
                    && mark_class(text[k + 1])
            &&& forall|k: int|
                0 < k < text.len() ==> !(letter_class(#[trigger] text[k - 1]) && (shape_class(
                    text[k],
                ) || number_class(text[k])))
            &&& forall|k: int|
                1 < k < text.len() ==> !((#[trigger] text[k - 1]) == ' ' && mark_class(text[k]))
        },
    }
}

/// Whether the route of the first `k` characters ends in a space that
/// completes the last of them.
pub open spec fn pending(scheme: Scheme, text: Seq<char>, k: int) -> bool {
    scheme == Scheme::Overflow && 0 < k <= text.len() && phonetic_class(text[k - 1])
}

/// The route of the first `k` characters of a text, each typed as itself,
/// under a scheme that leaves them as they are.
pub open spec fn own_route(cv: ConnectorView, text: Seq<char>, k: int) -> (Seq<char>, nat) {
    if pending(cv.scheme, text, k) {
        (text.take(k).push(' '), pair_sum(cv, text.take(k)) + cv.pair_cost(text[k - 1], ' '))
    } else {
        (text.take(k), pair_sum(cv, text.take(k)))
    }
}

/// The sum, in hundredths, of the costs of the adjacent pairs of a text,
/// each looked up by itself.
pub open spec fn pair_sum(cv: ConnectorView, text: Seq<char>) -> nat
    decreases text.len(),
{
    if text.len() < 2 {
        0
    } else {
        pair_sum(cv, text.drop_last()) + cv.pair_cost(text[text.len() - 2], text[text.len() - 1])
    }
}

/// The chain that types every character of a text as its own code.
pub open spec fn own_pieces(text: Seq<char>) -> Seq<Piece> {
    Seq::new(text.len(), |k: int| own_piece(text, k))
}

/// Where the dictionary has no word that stands in the text, one chain
/// only spells a start of the text: the characters typed as themselves.
proof fn lemma_bare_spelling(dict: DictionaryView, text: Seq<char>, pieces: Seq<Piece>)
    requires
        bare(dict, text),
        spells(dict, text, pieces),
    ensures
        span(pieces) == pieces.len(),
        pieces.len() <= text.len(),
        pieces == own_pieces(text).take(pieces.len() as int),
    decreases pieces.len(),
{
    if pieces.len() > 0 {
        let rest = pieces.drop_last();
        lemma_bare_spelling(dict, text, rest);
        let at = span(rest) as int;
        assert(uncovered(dict, text, at));
        if offered(dict, text, at, pieces.last()) {
            let cand = choose|cand: CandidateView|
                #[trigger] dict.lists(cand) && matches_at(text, at, cand.word) && pieces.last()
                    == piece_of(cand);
            assert(false);
        }
        assert(pieces =~= own_pieces(text).take(pieces.len() as int)) by {
            assert forall|k: int| 0 <= k < pieces.len() implies pieces[k] == own_pieces(text).take(
                pieces.len() as int,
            )[k] by {
                if k < rest.len() {
                    assert(pieces[k] == rest[k]);
                    assert(rest[k] == own_pieces(text).take(rest.len() as int)[k]);
                }
            }
        }
    } else {
        assert(pieces =~= own_pieces(text).take(0));
    }
}

/// Under a scheme that leaves its characters as they are, the chain of the
/// first `k` characters of a text, each typed as itself, is these
/// characters at the cost of their adjacent pairs, with the space that
/// completes the last of them where one is pending.
proof fn lemma_own_chain(cv: ConnectorView, text: Seq<char>, k: int)
    requires
        0 <= k <= text.len(),
        plain(cv.scheme, text),
    ensures
        chain(cv, own_pieces(text).take(k)) == own_route(cv, text, k),
    decreases k,
{
    let pieces = own_pieces(text).take(k);
    if k == 0 {
        assert(text.take(0) =~= Seq::<char>::empty());
    } else {
        lemma_own_chain(cv, text, k - 1);
        assert(pieces.drop_last() =~= own_pieces(text).take(k - 1));
        assert(pieces.last() == own_piece(text, k - 1));
        let before = own_route(cv, text, k - 1);
        let c = text[k - 1];
        let own = seq![c];
        assert(own[0] == c && own.last() == c && own.len() == 1);
        assert(text.take(k).drop_last() =~= text.take(k - 1));
        assert(text.take(k - 1).push(c) =~= text.take(k));
        let merged = cv.merge(before.0, before.1, own, 0);
        if k == 1 {
            assert(own =~= text.take(1));
            assert(merged.0 =~= own_route(cv, text, k).0);
        } else {
            let b = text[k - 2];
            assert(text.take(k - 1).last() == b);
            assert(text.take(k)[k - 2] == b);
            if k >= 3 {
                assert(text.take(k - 1)[k - 3] == text[k - 3]);
            }
            if pending(cv.scheme, text, k - 1) {
                assert(before.0.last() == ' ');
                assert(before.0[before.0.len() - 2] == b);
                assert(before.0.drop_last() =~= text.take(k - 1));
                assert(mark_class(c));
                assert(merged.0 =~= own_route(cv, text, k).0);
            } else {
                assert(before.0 == text.take(k - 1));
                assert(text.take(k - 1) + own =~= text.take(k));
                assert(text.take(k - 1).push(' ') + own =~= text.take(k - 1).push(' ').push(c));
                assert(text.take(k - 1) + own.push(' ') =~= text.take(k).push(' '));
                assert(merged.0 =~= own_route(cv, text, k).0);
            }
        }
    }
}

/// Where the dictionary has no word that stands anywhere in the text, and
/// the scheme joins the characters of the text as they are, the route is the
/// text itself, at the cost of its adjacent pairs.
pub proof fn lemma_bare_text_types_itself(run: Run)
    requires
        run.dict.wf(),
        run.window >= 2,
        bare(run.dict, run.text),
        plain(run.costs.scheme, run.text),
    ensures
        encoding(run.start(), run.dict, run.text) == Ok::<(Seq<char>, nat), RouteError>(
            (run.text, pair_sum(run.costs, run.text)),
        ),
{
    assert(run.roomy()) by {
        assert forall|cand: CandidateView, at: int|
            #[trigger] run.dict.lists(cand) && #[trigger] matches_at(
                run.text,
                at,
                cand.word,
            ) implies cand.word.len() < run.window by {
            let x = choose|x: int| run.dict.holds(cand.word[0], x, cand);
            assert(cand == run.dict.groups[cand.word[0]][x]);
            assert(cand.word.len() > 0);
            assert(uncovered(run.dict, run.text, at));
        }
    }
    lemma_route_is_chain(run);
    let route = encoding(run.start(), run.dict, run.text)->Ok_0;
    let pieces = choose|pieces: Seq<Piece>|
        #[trigger] spells(run.dict, run.text, pieces) && span(pieces) == run.text.len() as int
            && chain(run.costs, pieces) == route;
    lemma_bare_spelling(run.dict, run.text, pieces);
    lemma_own_chain(run.costs, run.text, run.text.len() as int);
    assert(run.text.take(run.text.len() as int) =~= run.text);
    assert(!pending(run.costs.scheme, run.text, run.text.len() as int));
}

} // verus!
