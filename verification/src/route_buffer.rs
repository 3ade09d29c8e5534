//! The route buffer: a fixed window of slots, each holding the best route
//! known to end at one text position, with the settled start of the route
//! kept aside.

use crate::chars::{append_chars, copy_chars};
use crate::route_connector::{
    lemma_merge_cost_bound, unknown_lines, ConnectorView, RouteConnector, JUNCTION_COST_MAX,
};
use vstd::arithmetic::div_mod::{
    lemma_fundamental_div_mod, lemma_fundamental_div_mod_converse, lemma_mod_bound,
    lemma_small_mod,
};
use vstd::prelude::*;

verus! {

/// A head route longer than this is cut: its first `FLUSH_THRESHOLD`
/// keystrokes are settled and leave the window.
pub const FLUSH_THRESHOLD: usize = 96;

/// How many keystrokes a cut leaves in the window at least: the cost model
/// looks at the last two keystrokes of a prefix and at none before them.
pub const LIVE_TAIL: usize = 2;

/// The least window that is recommended.
pub const WINDOW_FLOOR: usize = 16;

/// The window for a dictionary whose longest word has `max_word_len`
/// characters: one slot more than that, so that the longest word ends in a
/// slot of its own, and `WINDOW_FLOOR` slots at least.
pub fn window_for(max_word_len: usize) -> (size: usize)
    ensures
        size == (if max_word_len < WINDOW_FLOOR {
            WINDOW_FLOOR
        } else if max_word_len < usize::MAX {
            (max_word_len + 1) as usize
        } else {
            usize::MAX
        }),
{
    if max_word_len < WINDOW_FLOOR {
        WINDOW_FLOOR
    } else if max_word_len < usize::MAX {
        max_word_len + 1
    } else {
        usize::MAX
    }
}

/// Why no route can be given.
#[derive(Clone, Copy, Debug, PartialEq, Eq, Structural)]
pub enum RouteError {
    /// A candidate reaches past the current position.
    UnterminatedRoute,
    /// No route ends at the current position.
    UnreachableTail,
}

/// Whether a new route displaces the one a slot holds: the slot is empty, or
/// the new route costs less, or it costs the same and is shorter.
pub open spec fn displaces(new: (Seq<char>, nat), held: (Seq<char>, nat)) -> bool {
    held.0.len() == 0 || new.1 < held.1 || (new.1 == held.1 && new.0.len() < held.0.len())
}

/// The highest cost among slots; zero where there is none.
pub open spec fn highest(slots: Seq<(Seq<char>, nat)>) -> nat
    decreases slots.len(),
{
    if slots.len() == 0 {
        0
    } else if slots.last().1 > highest(slots.drop_last()) {
        slots.last().1
    } else {
        highest(slots.drop_last())
    }
}

/// No slot costs more than the highest cost.
pub proof fn lemma_highest(slots: Seq<(Seq<char>, nat)>)
    ensures
        forall|i: int| 0 <= i < slots.len() ==> (#[trigger] slots[i]).1 <= highest(slots),
    decreases slots.len(),
{
    if slots.len() > 0 {
        lemma_highest(slots.drop_last());
        assert forall|i: int| 0 <= i < slots.len() implies (#[trigger] slots[i]).1 <= highest(
            slots,
        ) by {
            if i < slots.len() - 1 {
                assert(slots.drop_last()[i] == slots[i]);
            }
        }
    }
}

/// The mathematical content of a route buffer.
pub struct BufferView {
    /// The window: slot `(p mod n)` holds the best route that ends at text
    /// position `p`, for the positions still in flight.
    pub slots: Seq<(Seq<char>, nat)>,
    /// The cost model, with the unknown pairs met so far.
    pub connector: ConnectorView,
    /// The slot of the current position.
    pub head: nat,
    /// How far the furthest pending candidate reaches past the current
    /// position.
    pub distance: nat,
    /// Whether a candidate was connected at the current position.
    pub connected: bool,
    /// How many positions the scan has left behind, as far as a `usize`
    /// counts.
    pub count: nat,
    /// The settled start of the route, which has left the window.
    pub settled: Seq<char>,
}

impl BufferView {
    /// The window is not empty and the head is one of its slots.
    pub open spec fn wf(self) -> bool {
        0 <= self.head < self.slots.len()
    }

    /// A buffer before the first position: every slot empty.
    pub open spec fn fresh(size: nat, connector: ConnectorView) -> BufferView {
        BufferView {
            slots: Seq::new(size, |i: int| (Seq::<char>::empty(), 0nat)),
            connector: connector,
            head: 0,
            distance: 0,
            connected: false,
            count: 0,
            settled: Seq::empty(),
        }
    }

    /// Whether a route ends at the current position: the empty route at the
    /// first position, and later what the head slot holds, if anything.
    pub open spec fn reachable(self) -> bool {
        self.count == 0 || self.live().0.len() > 0
    }

    /// How many keystrokes of the head route a cut settles: the first
    /// `FLUSH_THRESHOLD`, or one less where only that leaves `LIVE_TAIL`.
    pub open spec fn cut(self) -> int {
        if self.live().0.len() - LIVE_TAIL < FLUSH_THRESHOLD {
            self.live().0.len() - LIVE_TAIL
        } else {
            FLUSH_THRESHOLD as int
        }
    }

    /// The route held for the current position.
    pub open spec fn live(self) -> (Seq<char>, nat) {
        self.slots[self.head as int]
    }

    /// The slot for the position `word_len` past the current one.
    pub open spec fn target(self, word_len: nat) -> int {
        ((self.head + word_len) as int) % (self.slots.len() as int)
    }

    /// No slot holds a cost above `bound`.
    pub open spec fn cost_bounded(self, bound: int) -> bool {
        forall|i: int| 0 <= i < self.slots.len() ==> (#[trigger] self.slots[i]).1 <= bound
    }

    /// Whether the head route is cut before the next candidate is connected:
    /// it is long, and nothing else is pending that could still beat it.
    pub open spec fn settles(self) -> bool {
        self.live().0.len() > FLUSH_THRESHOLD && self.distance == 0
    }

    /// The buffer after the head route was cut, where it is to be cut.
    pub open spec fn settle(self) -> BufferView {
        if self.settles() {
            BufferView {
                slots: self.slots.update(
                    self.head as int,
                    (self.live().0.skip(self.cut()), self.live().1),
                ),
                settled: self.settled + self.live().0.take(self.cut()),
                ..self
            }
        } else {
            self
        }
    }

    /// The buffer after a candidate of `word_len` text characters, typed as
    /// `code` at cost `cost`, was connected at the current position. Where
    /// no route ends at that position there is nothing to connect it to.
    pub open spec fn connect_code(self, word_len: nat, code: Seq<char>, cost: nat) -> BufferView {
        if self.reachable() {
            self.extend(word_len, code, cost)
        } else {
            BufferView { connected: true, ..self }
        }
    }

    /// The buffer after the head route, as it stands, was joined with a
    /// candidate: the merged route goes to the slot `word_len` positions on
    /// if it displaces what the slot holds.
    pub open spec fn join(self, word_len: nat, code: Seq<char>, cost: nat) -> BufferView {
        let merged = self.connector.merge(self.live().0, self.live().1, code, cost);
        let at = self.target(word_len);
        BufferView {
            slots: if displaces(merged, self.slots[at]) {
                self.slots.update(at, merged)
            } else {
                self.slots
            },
            connector: self.connector.merge_note(self.live().0, code),
            distance: if self.distance >= word_len {
                self.distance
            } else {
                word_len
            },
            connected: true,
            ..self
        }
    }

    /// The buffer after the route that ends at the current position, cut
    /// first where it is to be cut, was joined with a candidate.
    pub open spec fn extend(self, word_len: nat, code: Seq<char>, cost: nat) -> BufferView {
        self.settle().join(word_len, code, cost)
    }

    /// The buffer after the scan moved to the next position.
    pub open spec fn advance(self) -> BufferView {
        BufferView {
            slots: self.slots.update(self.head as int, (Seq::<char>::empty(), 0nat)),
            head: (((self.head + 1) as int) % (self.slots.len() as int)) as nat,
            distance: if self.distance > 0 {
                (self.distance - 1) as nat
            } else {
                0
            },
            connected: false,
            count: if self.count < usize::MAX {
                self.count + 1
            } else {
                self.count
            },
            ..self
        }
    }

    /// The route that ends at the current position, if there is one and
    /// nothing reaches past it.
    pub open spec fn finalize(self) -> Result<(Seq<char>, nat), RouteError> {
        if self.distance != 0 {
            Err(RouteError::UnterminatedRoute)
        } else if !self.reachable() {
            Err(RouteError::UnreachableTail)
        } else {
            Ok((self.settled + self.live().0, self.live().1))
        }
    }
}

/// Connecting a candidate keeps the window and raises no cost above the
/// bound by more than the candidate's cost and one junction.
pub proof fn lemma_connect_code_bound(
    buf: BufferView,
    word_len: nat,
    code: Seq<char>,
    cost: nat,
    bound: int,
)
    requires
        buf.wf(),
        buf.cost_bounded(bound),
    ensures
        buf.connect_code(word_len, code, cost).wf(),
        buf.connect_code(word_len, code, cost).slots.len() == buf.slots.len(),
        buf.connect_code(word_len, code, cost).cost_bounded(bound + cost + JUNCTION_COST_MAX),
{
    if buf.reachable() {
        let cut = buf.settle();
        let next = buf.extend(word_len, code, cost);
        assert(cut.wf() && cut.slots.len() == buf.slots.len());
        assert forall|i: int| 0 <= i < cut.slots.len() implies (#[trigger] cut.slots[i]).1
            <= bound by {
            assert(buf.slots[i].1 <= bound);
        }
        lemma_merge_cost_bound(cut.connector, cut.live().0, cut.live().1, code, cost);
        let at = cut.target(word_len);
        assert(0 <= at < cut.slots.len()) by {
            lemma_mod_bound((cut.head + word_len) as int, cut.slots.len() as int);
        }
        assert forall|i: int| 0 <= i < next.slots.len() implies (#[trigger] next.slots[i]).1
            <= bound + cost + JUNCTION_COST_MAX by {
            assert(cut.slots[i].1 <= bound);
        }
    }
}

/// Moving on keeps the window and raises no cost.
pub proof fn lemma_advance_bound(buf: BufferView, bound: int)
    requires
        buf.wf(),
        buf.cost_bounded(bound),
    ensures
        buf.advance().wf(),
        buf.advance().slots.len() == buf.slots.len(),
        buf.advance().cost_bounded(bound),
{
    lemma_mod_bound((buf.head + 1) as int, buf.slots.len() as int);
    assert forall|i: int| 0 <= i < buf.advance().slots.len() implies (
    #[trigger] buf.advance().slots[i]).1 <= bound by {
        assert(buf.slots[i].1 <= bound);
    }
}

/// Stepping `w` slots on from slot `h` in a window of `n` slots.
proof fn lemma_wrap(h: int, w: int, n: int)
    requires
        0 <= h < n,
        0 <= w,
    ensures
        (h + w) % n == (if h + w % n < n {
            h + w % n
        } else {
            h + w % n - n
        }),
{
    let r = w % n;
    let q = w / n;
    lemma_fundamental_div_mod(w, n);
    if h + r < n {
        assert(h + w == q * n + (h + r)) by (nonlinear_arith)
            requires
                w == n * q + r,
        ;
        lemma_fundamental_div_mod_converse(h + w, n, q, h + r);
    } else {
        assert(h + w == (q + 1) * n + (h + r - n)) by (nonlinear_arith)
            requires
                w == n * q + r,
        ;
        lemma_fundamental_div_mod_converse(h + w, n, q + 1, h + r - n);
    }
}

/// The route buffer.
pub struct RouteBuffer {
    buffer: Vec<(Vec<char>, u128)>,
    connector: RouteConnector,
    head: usize,
    distance: usize,
    connected: bool,
    count: usize,
    global_best_route: Vec<char>,
}

impl View for RouteBuffer {
    type V = BufferView;

    closed spec fn view(&self) -> BufferView {
        BufferView {
            slots: Seq::new(
                self.buffer@.len(),
                |i: int| (self.buffer@[i].0@, self.buffer@[i].1 as nat),
            ),
            connector: self.connector@,
            head: self.head as nat,
            distance: self.distance as nat,
            connected: self.connected,
            count: self.count as nat,
            settled: self.global_best_route@,
        }
    }
}

impl RouteBuffer {
    /// The window is not empty, the head is one of its slots, and the
    /// connector is consistent.
    pub closed spec fn wf(&self) -> bool {
        &&& self@.wf()
        &&& self.connector.wf()
    }

    /// A well-formed buffer has a well-formed content.
    pub proof fn lemma_wf(&self)
        requires
            self.wf(),
        ensures
            self@.wf(),
            self@.slots.len() <= usize::MAX,
            self@.distance <= usize::MAX,
    {
        assert(self.buffer@.len() == self.buffer.len());
    }

    /// A buffer of `size` empty slots over a cost model; none for a window
    /// of no slots.
    pub fn new(size: usize, connector: RouteConnector) -> (made: Option<Self>)
        requires
            connector.wf(),
        ensures
            (size == 0) == (made is None),
            size > 0 ==> made.unwrap().wf() && made.unwrap()@ == BufferView::fresh(
                size as nat,
                connector@,
            ),
    {
        if size == 0 {
            return None;
        }
        let mut buffer: Vec<(Vec<char>, u128)> = Vec::with_capacity(size);
        let mut i: usize = 0;
        while i < size
            invariant
                i <= size,
                buffer@.len() == i,
                forall|j: int| 0 <= j < i ==> (#[trigger] buffer@[j]).0@.len() == 0 && buffer@[j].1 == 0,
            decreases size - i,
        {
            buffer.push((Vec::new(), 0));
            i = i + 1;
        }
        let made = RouteBuffer {
            buffer,
            connector,
            head: 0,
            distance: 0,
            connected: false,
            count: 0,
            global_best_route: Vec::new(),
        };
        proof {
            assert forall|j: int| 0 <= j < size implies made@.slots[j] == (Seq::<char>::empty(), 0nat) by {
                assert(made.buffer@[j].0@ =~= Seq::<char>::empty());
            }
            assert(made@.slots =~= BufferView::fresh(size as nat, connector@).slots);
        }
        Some(made)
    }

    /// Whether a candidate was connected at the current position.
    pub fn is_connected(&self) -> (connected: bool)
        ensures
            connected == self@.connected,
    {
        self.connected
    }

    /// How many positions the scan has left behind, as far as a `usize`
    /// counts.
    pub fn count(&self) -> (count: usize)
        ensures
            count == self@.count,
    {
        self.count
    }

    /// How many slots the window has.
    pub fn window_size(&self) -> (size: usize)
        ensures
            size == self@.slots.len(),
    {
        self.buffer.len()
    }

    /// How far the furthest pending candidate reaches past the current
    /// position.
    pub fn distance(&self) -> (distance: usize)
        ensures
            distance == self@.distance,
    {
        self.distance
    }

    /// How many keystrokes of the route are settled and have left the window.
    pub fn settled_len(&self) -> (n: usize)
        ensures
            n == self@.settled.len(),
    {
        self.global_best_route.len()
    }

    /// How many keystrokes the route held for the current position has.
    pub fn live_len(&self) -> (n: usize)
        requires
            self.wf(),
        ensures
            n == self@.live().0.len(),
    {
        self.buffer[self.head].0.len()
    }

    /// The cost of the route held for the current position.
    pub fn live_cost(&self) -> (cost: u128)
        requires
            self.wf(),
        ensures
            cost == self@.live().1,
    {
        self.buffer[self.head].1
    }

    /// The highest cost that any slot holds.
    pub fn peak_cost(&self) -> (peak: u128)
        ensures
            peak == highest(self@.slots),
    {
        let mut peak: u128 = 0;
        let mut i: usize = 0;
        assert(self@.slots.take(0) =~= Seq::<(Seq<char>, nat)>::empty());
        while i < self.buffer.len()
            invariant
                i <= self.buffer@.len(),
                peak == highest(self@.slots.take(i as int)),
            decreases self.buffer@.len() - i,
        {
            proof {
                assert(self@.slots.take(i + 1).drop_last() =~= self@.slots.take(i as int));
                assert(self@.slots.take(i + 1).last().1 == self.buffer@[i as int].1);
            }
            if self.buffer[i].1 > peak {
                peak = self.buffer[i].1;
            }
            i = i + 1;
        }
        assert(self@.slots.take(i as int) =~= self@.slots);
        peak
    }

    /// One line per unknown pair that the cost model has met, in the order
    /// in which they were met: the pair's two keys.
    pub fn report_unknown_keys(&self) -> (lines: Vec<Vec<char>>)
        ensures
            lines@.len() == self@.connector.unknown.len(),
            forall|i: int|
                0 <= i < lines@.len() ==> (#[trigger] lines@[i])@ == unknown_lines(
                    self@.connector.unknown,
                )[i],
    {
        self.connector.report_unknown_keys()
    }

    /// Moves to the next text position: the head slot is emptied, the head
    /// moves one slot on, and what was pending is one position nearer.
    pub fn next(&mut self)
        requires
            old(self).wf(),
        ensures
            final(self).wf(),
            final(self)@ == old(self)@.advance(),
    {
        let size: usize = self.buffer.len();
        self.buffer[self.head] = (Vec::new(), 0);
        proof {
            lemma_wrap(self.head as int, 1, size as int);
            if size > 1 {
                lemma_small_mod(1, size as nat);
            }
        }
        self.head = if self.head + 1 < size {
            self.head + 1
        } else {
            0
        };
        if self.distance > 0 {
            self.distance = self.distance - 1;
        }
        self.connected = false;
        if self.count < usize::MAX {
            self.count = self.count + 1;
        }
        proof {
            assert(self@.slots =~= old(self)@.advance().slots);
        }
    }

    /// Cuts the head route where it is long and nothing else is pending: its
    /// first `FLUSH_THRESHOLD` keystrokes are settled.
    fn settle(&mut self)
        requires
            old(self).wf(),
        ensures
            final(self).wf(),
            final(self)@ == old(self)@.settle(),
    {
        let len: usize = self.buffer[self.head].0.len();
        if len > FLUSH_THRESHOLD && self.distance == 0 {
            let cut: usize = if len - LIVE_TAIL < FLUSH_THRESHOLD {
                len - LIVE_TAIL
            } else {
                FLUSH_THRESHOLD
            };
            let cost: u128 = self.buffer[self.head].1;
            let mut rest: Vec<char> = Vec::new();
            append_chars(&mut rest, &self.buffer[self.head].0, cut);
            let mut i: usize = 0;
            while i < cut
                invariant
                    self.wf(),
                    i <= cut,
                    cut < len,
                    len == self.buffer@[self.head as int].0@.len(),
                    self.count == old(self).count,
                    self.buffer == old(self).buffer,
                    self.head == old(self).head,
                    self.distance == old(self).distance,
                    self.connected == old(self).connected,
                    self.connector == old(self).connector,
                    self.global_best_route@ == old(self).global_best_route@
                        + self.buffer@[self.head as int].0@.take(i as int),
                decreases cut - i,
            {
                let c: char = self.buffer[self.head].0[i];
                self.global_best_route.push(c);
                i = i + 1;
                assert(self.global_best_route@ =~= old(self).global_best_route@
                    + self.buffer@[self.head as int].0@.take(i as int));
            }
            self.buffer[self.head] = (rest, cost);
            proof {
                assert(self@.slots =~= old(self)@.settle().slots);
            }
        }
    }

    /// Connects a candidate at the current position: a word of `word_len`
    /// text characters, typed as `tail_code` at cost `tail_time`.
    ///
    /// The head route, cut first where it has grown long, is joined with the
    /// candidate by the cost model. The result goes into the slot `word_len`
    /// positions on if that slot is empty, or holds a dearer route, or one
    /// that costs the same and is longer. Where no route ends at the current
    /// position (the head slot is empty after the first position) nothing is
    /// written.
    pub fn connect_code(&mut self, word_len: usize, tail_code: &Vec<char>, tail_time: u128)
        requires
            old(self).wf(),
            tail_code@.len() > 0,
            old(self)@.live().1 + tail_time + JUNCTION_COST_MAX <= u128::MAX,
        ensures
            final(self).wf(),
            final(self)@ == old(self)@.connect_code(word_len as nat, tail_code@, tail_time as nat),
    {
        if self.count > 0 && self.buffer[self.head].0.len() == 0 {
            self.connected = true;
            return ;
        }
        self.settle();
        let ghost cut = self@;
        let size: usize = self.buffer.len();
        let (code, time) = self.connector.connect(
            &self.buffer[self.head].0,
            tail_code,
            self.buffer[self.head].1,
            tail_time,
        );
        let step: usize = word_len % size;
        let index: usize = if step < size - self.head {
            self.head + step
        } else {
            step - (size - self.head)
        };
        proof {
            lemma_wrap(self.head as int, word_len as int, size as int);
            assert(index == cut.target(word_len as nat));
        }
        let replace: bool = self.buffer[index].0.len() == 0 || time < self.buffer[index].1 || (time
            == self.buffer[index].1 && code.len() < self.buffer[index].0.len());
        if replace {
            self.buffer[index] = (code, time);
        }
        if word_len > self.distance {
            self.distance = word_len;
        }
        self.connected = true;
        proof {
            let want = old(self)@.extend(word_len as nat, tail_code@, tail_time as nat);
            assert(self@.slots =~= want.slots);
        }
    }

    /// The route that ends at the current position, with its cost: the
    /// settled start followed by what the head slot holds.
    ///
    /// Fails with `UnterminatedRoute` while a candidate reaches past the
    /// current position, and with `UnreachableTail` if nothing is pending but
    /// no route ends at the current position.
    pub fn get_global_best_route(&self) -> (route: Result<(Vec<char>, u128), RouteError>)
        requires
            self.wf(),
        ensures
            match route {
                Ok(found) => self@.finalize() == Ok::<(Seq<char>, nat), RouteError>(
                    (found.0@, found.1 as nat),
                ),
                Err(e) => self@.finalize() == Err::<(Seq<char>, nat), RouteError>(e),
            },
    {
        if self.distance != 0 {
            Err(RouteError::UnterminatedRoute)
        } else if self.count > 0 && self.buffer[self.head].0.len() == 0 {
            Err(RouteError::UnreachableTail)
        } else {
            let mut code = copy_chars(&self.global_best_route);
            append_chars(&mut code, &self.buffer[self.head].0, 0);
            assert(self.buffer@[self.head as int].0@.skip(0) =~= self.buffer@[self.head as int].0@);
            Ok((code, self.buffer[self.head].1))
        }
    }

    /// How many distinct unknown pairs the cost model has met.
    pub fn unknown_keys_count(&self) -> (n: usize)
        ensures
            n == self@.connector.unknown.len(),
    {
        self.connector.unknown_keys_count()
    }
}

} // verus!
