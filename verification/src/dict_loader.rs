//! The dictionary compiler: raw entries are put in their order, every entry
//! claims a code of its own, and each word keeps the cheapest of its codes.

use crate::chars::copy_chars;
use crate::dictionary::{
    candidate_views, Candidate, CandidateView, CompiledDictionary, DictionaryView,
};
use crate::entry::{
    entry_before, entry_views, lemma_entry_total, lemma_entry_transitive, strictly_sorted, Entry,
    EntryView,
};
use crate::route_connector::{
    lemma_note_sequence_keeps, lemma_same_costs_same_sum, same_costs, ConnectorView,
    RouteConnector,
};
use crate::seq_table::SeqTable;
use crate::sorting::{
    ascending, in_range, is_sorting, item, lemma_order_ignores_arrangement, lemma_sorting_unique,
    same_entries, sort_range, sorted_entries, words_given, words_present,
};
use crate::unique_code::{get_unique_code, lemma_first_free_exists, unique_code};
use vstd::prelude::*;

verus! {

/// Puts entries in their order and drops repeated ones.
///
/// The result holds exactly the entries of `items`, each once, in strictly
/// ascending order: higher priority first, then fewer keystrokes per
/// character, then by word and by code.
pub fn sort_items(items: &Vec<Entry>) -> (sorted: Vec<Entry>)
    requires
        words_present(items@),
    ensures
        is_sorting(entry_views(sorted@), entry_views(items@)),
        entry_views(sorted@) == sorted_entries(entry_views(items@)),
{
    let order = sort_range(items, 0, items.len());
    let mut sorted: Vec<Entry> = Vec::new();
    let mut k: usize = 0;
    while k < order.len()
        invariant
            words_present(items@),
            in_range(items@, order@),
            ascending(items@, order@),
            k <= order@.len(),
            strictly_sorted(entry_views(sorted@)),
            forall|t: int|
                0 <= t < sorted@.len() ==> exists|m: int|
                    0 <= m < k && (#[trigger] sorted@[t])@ == item(items@, order@, m),
            forall|m: int|
                0 <= m < k ==> entry_views(sorted@).contains(#[trigger] item(items@, order@, m)),
            k > 0 ==> sorted@.len() > 0 && sorted@.last()@ == item(items@, order@, k - 1),
        decreases order@.len() - k,
    {
        let ghost before = sorted@;
        let e: &Entry = &items[order[k]];
        assert(e@ == item(items@, order@, k as int));
        if k == 0 || !e.same(&items[order[k - 1]]) {
            sorted.push(e.copy());
            proof {
                let n = before.len() as int;
                let views = entry_views(sorted@);
                assert(views[n] == e@);
                assert forall|i: int, j: int| 0 <= i < j < views.len() implies entry_before(
                    views[i],
                    views[j],
                ) by {
                    assert(views[i] == entry_views(before)[i]);
                    if j < n {
                        assert(views[j] == entry_views(before)[j]);
                    } else {
                        let prev = item(items@, order@, k - 1);
                        assert(!entry_before(e@, prev));
                        lemma_entry_total(prev, e@);
                        let m = choose|m: int|
                            0 <= m < k && (#[trigger] before[i])@ == item(items@, order@, m);
                        assert(order@[m] < items@.len());
                        if i < n - 1 {
                            assert(entry_before(
                                entry_views(before)[i],
                                entry_views(before)[n - 1],
                            ));
                            lemma_entry_transitive(views[i], prev, e@);
                        }
                    }
                }
                assert forall|t: int| 0 <= t < sorted@.len() implies exists|m: int|
                    0 <= m < k + 1 && (#[trigger] sorted@[t])@ == item(items@, order@, m) by {
                    if t < n {
                        assert(sorted@[t] == before[t]);
                        let m = choose|m: int|
                            0 <= m < k && (#[trigger] before[t])@ == item(items@, order@, m);
                        assert(sorted@[t]@ == item(items@, order@, m));
                    } else {
                        assert(sorted@[t]@ == item(items@, order@, k as int));
                    }
                }
                assert forall|m: int| 0 <= m < k + 1 implies views.contains(
                    #[trigger] item(items@, order@, m),
                ) by {
                    if m < k {
                        let t = choose|t: int|
                            0 <= t < entry_views(before).len() && entry_views(before)[t] == item(
                                items@,
                                order@,
                                m,
                            );
                        assert(views[t] == item(items@, order@, m));
                    } else {
                        assert(views[n] == item(items@, order@, m));
                    }
                }
            }
        } else {
            proof {
                let views = entry_views(sorted@);
                assert(views[sorted@.len() - 1] == item(items@, order@, k as int));
            }
        }
        k = k + 1;
    }
    proof {
        let views = entry_views(sorted@);
        assert forall|e: EntryView| views.contains(e) <==> entry_views(items@).contains(e) by {
            if views.contains(e) {
                let t = choose|t: int| 0 <= t < views.len() && views[t] == e;
                let m = choose|m: int|
                    0 <= m < k && (#[trigger] sorted@[t])@ == item(items@, order@, m);
                assert(order@[m] < items@.len());
                assert(entry_views(items@)[order@[m] as int] == e);
            }
            if entry_views(items@).contains(e) {
                let x = choose|x: int|
                    0 <= x < entry_views(items@).len() && entry_views(items@)[x] == e;
                assert(order@.contains(x as usize));
                let m = choose|m: int| 0 <= m < order@.len() && order@[m] == x as usize;
                assert(views.contains(item(items@, order@, m)));
            }
        }
        assert(is_sorting(views, entry_views(items@)));
        lemma_sorting_unique(views, sorted_entries(entry_views(items@)), entry_views(items@));
    }
    sorted
}

/// Why no dictionary was compiled.
#[derive(Clone, Copy, Debug, PartialEq, Eq, Structural)]
pub enum DictionaryError {
    /// There was no entry to compile.
    EmptyDictionary,
}

/// Every entry of a list has a word and a code that are not empty.
pub open spec fn entries_valid(entries: Seq<EntryView>) -> bool {
    forall|i: int|
        0 <= i < entries.len() ==> (#[trigger] entries[i]).word.len() > 0 && entries[i].code.len()
            > 0
}

/// Whether a new code for a word displaces the one that the word holds: it
/// costs less, or costs the same and is shorter.
pub open spec fn cheaper(cost: nat, code: Seq<char>, held: CandidateView) -> bool {
    cost < held.cost || (cost == held.cost && code.len() < held.code.len())
}

/// Whether the candidate at place `i` is for the given word.
pub open spec fn word_at(kept: Seq<CandidateView>, word: Seq<char>, i: int) -> bool {
    0 <= i < kept.len() && kept[i].word == word
}

/// What the compiler has done so far.
pub struct CompileState {
    /// The codes that were claimed, in the order of their claims. None is
    /// ever given up.
    pub claimed: Seq<Seq<char>>,
    /// For each word met, the best candidate seen for it; the words in the
    /// order in which they were first met.
    pub kept: Seq<CandidateView>,
    /// The cost model, with the unknown pairs met so far.
    pub connector: ConnectorView,
}

impl CompileState {
    /// The state before the first entry.
    pub open spec fn start(connector: ConnectorView) -> CompileState {
        CompileState { claimed: Seq::empty(), kept: Seq::empty(), connector: connector }
    }

    /// No code was claimed twice; every kept code was claimed; no two kept
    /// candidates share their word or their code; and every kept candidate
    /// has a word and a code.
    pub open spec fn wf(self) -> bool {
        &&& self.claimed.no_duplicates()
        &&& forall|i: int|
            0 <= i < self.kept.len() ==> self.claimed.contains((#[trigger] self.kept[i]).code)
                && self.kept[i].wf()
        &&& forall|i: int, j: int|
            0 <= i < self.kept.len() && 0 <= j < self.kept.len() && i != j ==> (
            #[trigger] self.kept[i]).word != (#[trigger] self.kept[j]).word && self.kept[i].code
                != self.kept[j].code
    }

    /// The state after one more entry: the entry claims its unique code, the
    /// code is costed, and the word keeps the cheaper of this code and the
    /// one it had.
    pub open spec fn add_item(self, entry: EntryView) -> CompileState {
        let code = unique_code(self.claimed, entry.code);
        let cost = self.connector.sequence_cost(code);
        let made = CandidateView { word: entry.word, code: code, cost: cost };
        CompileState {
            claimed: self.claimed.push(code),
            kept: if exists|i: int| word_at(self.kept, entry.word, i) {
                let i = choose|i: int| word_at(self.kept, entry.word, i);
                if cheaper(cost, code, self.kept[i]) {
                    self.kept.update(i, made)
                } else {
                    self.kept
                }
            } else {
                self.kept.push(made)
            },
            connector: self.connector.note_sequence(code),
        }
    }

    /// The state after a list of entries, first entry first.
    pub open spec fn add_items(self, entries: Seq<EntryView>) -> CompileState
        decreases entries.len(),
    {
        if entries.len() == 0 {
            self
        } else {
            self.add_items(entries.drop_last()).add_item(entries.last())
        }
    }
}

/// The dictionary that holds a list of candidates, first candidate first.
pub open spec fn dict_of(kept: Seq<CandidateView>) -> DictionaryView
    decreases kept.len(),
{
    if kept.len() == 0 {
        DictionaryView::empty()
    } else {
        dict_of(kept.drop_last()).insert(kept.last())
    }
}

/// Turns entries, in the order given, into a compiled dictionary; also
/// returns the length of its longest word.
///
/// Every entry claims a unique code for good, whether or not its word keeps
/// it. The code is costed by the cost model, and each word keeps the
/// cheapest code that an entry gave it, the shorter of two that cost the
/// same. The kept candidates are grouped by the first character of their
/// word.
pub fn convert_items(items: &Vec<Entry>, connector: &mut RouteConnector) -> (made: (
    CompiledDictionary,
    usize,
))
    requires
        entries_valid(entry_views(items@)),
        old(connector).wf(),
    ensures
        final(connector).wf(),
        made.0.wf(),
        made.0@ == dict_of(
            CompileState::start(old(connector)@).add_items(entry_views(items@)).kept,
        ),
        made.0@.unique(),
        made.1 == made.0@.max_word_len,
        final(connector)@ == CompileState::start(old(connector)@).add_items(
            entry_views(items@),
        ).connector,
{
    let ghost start = CompileState::start(connector@);
    let ghost views = entry_views(items@);
    let ghost mut state = start;
    let mut claimed = SeqTable::new();
    let mut words = SeqTable::new();
    let mut kept: Vec<Candidate> = Vec::new();
    let mut i: usize = 0;
    proof {
        assert(views.take(0) =~= Seq::<EntryView>::empty());
        assert(candidate_views(kept@) =~= state.kept);
    }
    while i < items.len()
        invariant
            i <= items@.len(),
            views == entry_views(items@),
            entries_valid(views),
            start == CompileState::start(old(connector)@),
            state == start.add_items(views.take(i as int)),
            state.wf(),
            connector.wf(),
            claimed.wf(),
            words.wf(),
            claimed@ == state.claimed,
            connector@ == state.connector,
            candidate_views(kept@) == state.kept,
            words@.len() == kept@.len(),
            forall|j: int| 0 <= j < kept@.len() ==> words@[j] == (#[trigger] kept@[j])@.word,
        decreases items@.len() - i,
    {
        let entry: &Entry = &items[i];
        let ghost before = state;
        proof {
            assert(views.take(i + 1).drop_last() =~= views.take(i as int));
            assert(views.take(i + 1).last() == entry@);
            assert(views[i as int] == entry@);
            lemma_add_item_wf(before, entry@);
            state = before.add_item(entry@);
            words.lemma_distinct();
        }
        let code = get_unique_code(&mut claimed, &entry.code);
        let cost: u128 = connector.get_time(&code);
        let found = words.find(&entry.word);
        match found {
            Some(at) => {
                proof {
                    assert(candidate_views(kept@)[at as int] == kept@[at as int]@);
                    assert(word_at(before.kept, entry@.word, at as int));
                    let chosen = choose|j: int| word_at(before.kept, entry@.word, j);
                    assert(words@[chosen] == kept@[chosen]@.word);
                    assert(chosen == at);
                }
                if cost < kept[at].cost || (cost == kept[at].cost && code.len()
                    < kept[at].code.len()) {
                    let ghost old_kept = kept@;
                    kept[at] = Candidate { word: copy_chars(&entry.word), code, cost };
                    proof {
                        assert(candidate_views(kept@) =~= state.kept);
                        assert forall|j: int| 0 <= j < kept@.len() implies words@[j] == (
                        #[trigger] kept@[j])@.word by {
                            if j != at {
                                assert(kept@[j] == old_kept[j]);
                            }
                        }
                    }
                }
            },
            None => {
                proof {
                    if exists|j: int| word_at(before.kept, entry@.word, j) {
                        let j = choose|j: int| word_at(before.kept, entry@.word, j);
                        assert(candidate_views(kept@)[j] == kept@[j]@);
                        assert(words@[j] == entry@.word);
                    }
                }
                let ghost old_kept = kept@;
                words.add(copy_chars(&entry.word));
                kept.push(Candidate { word: copy_chars(&entry.word), code, cost });
                proof {
                    assert(candidate_views(kept@) =~= state.kept);
                    assert forall|j: int| 0 <= j < kept@.len() implies words@[j] == (
                    #[trigger] kept@[j])@.word by {
                        if j < old_kept.len() {
                            assert(kept@[j] == old_kept[j]);
                        }
                    }
                }
            },
        }
        i = i + 1;
    }
    assert(views.take(i as int) =~= views);
    let mut dict = CompiledDictionary::new();
    let mut k: usize = 0;
    assert(state.kept.take(0) =~= Seq::<CandidateView>::empty());
    while k < kept.len()
        invariant
            k <= kept@.len(),
            state.wf(),
            candidate_views(kept@) == state.kept,
            dict.wf(),
            dict@ == dict_of(state.kept.take(k as int)),
        decreases kept@.len() - k,
    {
        proof {
            assert(state.kept.take(k + 1).drop_last() =~= state.kept.take(k as int));
            assert(candidate_views(kept@)[k as int] == kept@[k as int]@);
        }
        dict.insert(kept[k].copy());
        k = k + 1;
    }
    proof {
        assert(state.kept.take(k as int) =~= state.kept);
        lemma_dict_of(state.kept);
    }
    let longest: usize = dict.max_word_len();
    (dict, longest)
}

/// One more entry keeps the compiler's state well formed.
pub proof fn lemma_add_item_wf(state: CompileState, entry: EntryView)
    requires
        state.wf(),
        entry.word.len() > 0,
        entry.code.len() > 0,
    ensures
        state.add_item(entry).wf(),
{
    let code = unique_code(state.claimed, entry.code);
    let next = state.add_item(entry);
    lemma_first_free_exists(state.claimed, entry.code);
    assert(next.claimed.no_duplicates()) by {
        assert forall|i: int, j: int|
            0 <= i < next.claimed.len() && 0 <= j < next.claimed.len() && i != j implies next.claimed[i]
            != next.claimed[j] by {
            if i < state.claimed.len() {
                assert(state.claimed.contains(state.claimed[i]));
            }
            if j < state.claimed.len() {
                assert(state.claimed.contains(state.claimed[j]));
            }
        }
    }
    assert forall|i: int| 0 <= i < next.kept.len() implies next.claimed.contains(
        (#[trigger] next.kept[i]).code,
    ) && next.kept[i].wf() by {
        if next.kept[i].code == code {
            assert(next.claimed[state.claimed.len() as int] == code);
        } else {
            assert(next.kept[i] == state.kept[i]);
            let at = choose|at: int|
                0 <= at < state.claimed.len() && state.claimed[at] == state.kept[i].code;
            assert(next.claimed[at] == state.kept[i].code);
        }
    }
    assert forall|i: int, j: int|
        0 <= i < next.kept.len() && 0 <= j < next.kept.len() && i != j implies (
    #[trigger] next.kept[i]).word != (#[trigger] next.kept[j]).word && next.kept[i].code
        != next.kept[j].code by {
        if exists|x: int| word_at(state.kept, entry.word, x) {
            let x = choose|x: int| word_at(state.kept, entry.word, x);
            assert(next.kept[i].word == state.kept[i].word);
            assert(next.kept[j].word == state.kept[j].word);
            assert(state.claimed.contains(state.kept[i].code));
            assert(state.claimed.contains(state.kept[j].code));
        } else {
            if i < state.kept.len() {
                assert(!word_at(state.kept, entry.word, i));
                assert(state.claimed.contains(state.kept[i].code));
            }
            if j < state.kept.len() {
                assert(!word_at(state.kept, entry.word, j));
                assert(state.claimed.contains(state.kept[j].code));
            }
        }
    }
}

/// A list of entries keeps the compiler's state well formed.
pub proof fn lemma_add_items_wf(state: CompileState, entries: Seq<EntryView>)
    requires
        state.wf(),
        entries_valid(entries),
    ensures
        state.add_items(entries).wf(),
        entries.len() > 0 ==> state.add_items(entries).kept.len() > 0,
    decreases entries.len(),
{
    if entries.len() > 0 {
        lemma_add_items_wf(state, entries.drop_last());
        lemma_add_item_wf(state.add_items(entries.drop_last()), entries.last());
    }
}

/// Whether no two candidates of a list share their word or their code.
pub open spec fn distinct(kept: Seq<CandidateView>) -> bool {
    forall|i: int, j: int|
        0 <= i < kept.len() && 0 <= j < kept.len() && i != j ==> (#[trigger] kept[i]).word != (
        #[trigger] kept[j]).word && kept[i].code != kept[j].code
}

/// The dictionary of a list of candidates holds the candidates of the list
/// and no others; it is well formed where they are, and none of its words or
/// codes occurs twice where none does in the list.
pub proof fn lemma_dict_of(kept: Seq<CandidateView>)
    ensures
        forall|c: char, i: int|
            dict_of(kept).groups.contains_key(c) && 0 <= i < dict_of(kept).groups[c].len()
                ==> kept.contains(#[trigger] dict_of(kept).groups[c][i]),
        forall|m: int| 0 <= m < kept.len() ==> dict_of(kept).lists(#[trigger] kept[m]),
        (forall|m: int| 0 <= m < kept.len() ==> (#[trigger] kept[m]).wf()) ==> dict_of(kept).wf(),
        distinct(kept) ==> dict_of(kept).unique(),
        kept.len() == 0 <==> dict_of(kept).groups =~= Map::<char, Seq<CandidateView>>::empty(),
    decreases kept.len(),
{
    if kept.len() > 0 {
        let prev = kept.drop_last();
        let x = kept.last();
        let d = dict_of(prev);
        let n = dict_of(kept);
        let c0 = x.word[0];
        let at = d.candidates(c0).len() as int;
        lemma_dict_of(prev);
        assert(n.groups.contains_key(c0));
        assert(n.groups[c0][at] == x);
        assert forall|c: char, i: int|
            n.groups.contains_key(c) && 0 <= i < n.groups[c].len() implies kept.contains(
            #[trigger] n.groups[c][i],
        ) by {
            if c == c0 && i == at {
                assert(kept[kept.len() - 1] == x);
            } else {
                assert(d.groups.contains_key(c));
                assert(n.groups[c][i] == d.groups[c][i]);
                let m = choose|m: int| 0 <= m < prev.len() && prev[m] == d.groups[c][i];
                assert(kept[m] == prev[m]);
            }
        }
        assert forall|m: int| 0 <= m < kept.len() implies n.lists(#[trigger] kept[m]) by {
            if m < prev.len() {
                assert(kept[m] == prev[m]);
                assert(d.lists(prev[m]));
                let i = choose|i: int| d.holds(prev[m].word[0], i, prev[m]);
                assert(n.holds(kept[m].word[0], i, kept[m]));
            } else {
                assert(n.holds(c0, at, x));
            }
        }
        if forall|m: int| 0 <= m < kept.len() ==> (#[trigger] kept[m]).wf() {
            assert forall|m: int| 0 <= m < prev.len() implies (#[trigger] prev[m]).wf() by {
                assert(prev[m] == kept[m]);
            }
            assert(x == kept[kept.len() - 1]);
            assert forall|c: char, i: int|
                n.groups.contains_key(c) && 0 <= i < n.groups[c].len() implies {
                let cand = #[trigger] n.groups[c][i];
                &&& cand.wf()
                &&& cand.word[0] == c
                &&& cand.word.len() <= n.max_word_len
                &&& cand.cost <= n.max_cost
                &&& n.groups[c].len() <= n.max_group_len
            } by {
                if c == c0 && i == at {
                } else {
                    assert(d.groups.contains_key(c));
                    assert(n.groups[c][i] == d.groups[c][i]);
                    assert(d.groups[c][i].wf());
                }
            }
        }
        if distinct(kept) {
            assert(distinct(prev)) by {
                assert forall|i: int, j: int|
                    0 <= i < prev.len() && 0 <= j < prev.len() && i != j implies (
                #[trigger] prev[i]).word != (#[trigger] prev[j]).word && prev[i].code
                    != prev[j].code by {
                    assert(prev[i] == kept[i] && prev[j] == kept[j]);
                }
            }
            assert forall|c: char, i: int, e: char, j: int|
                n.groups.contains_key(c) && 0 <= i < n.groups[c].len() && n.groups.contains_key(e)
                    && 0 <= j < n.groups[e].len() && (c != e || i != j) implies {
                &&& (#[trigger] n.groups[c][i]).word != (#[trigger] n.groups[e][j]).word
                &&& n.groups[c][i].code != n.groups[e][j].code
            } by {
                let first_new = c == c0 && i == at;
                let second_new = e == c0 && j == at;
                if !first_new {
                    assert(d.groups.contains_key(c));
                    assert(n.groups[c][i] == d.groups[c][i]);
                }
                if !second_new {
                    assert(d.groups.contains_key(e));
                    assert(n.groups[e][j] == d.groups[e][j]);
                }
                if first_new && !second_new {
                    let m = choose|m: int| 0 <= m < prev.len() && prev[m] == d.groups[e][j];
                    assert(kept[m] == prev[m]);
                    assert(kept[kept.len() - 1] == x);
                } else if !first_new && second_new {
                    let m = choose|m: int| 0 <= m < prev.len() && prev[m] == d.groups[c][i];
                    assert(kept[m] == prev[m]);
                    assert(kept[kept.len() - 1] == x);
                }
            }
        }
    }
}

/// The candidate that entry `k` of a list makes: its word, with the unique
/// code that the entry claims and what the cost model gives that code.
pub open spec fn made_by(start: CompileState, entries: Seq<EntryView>, k: int) -> CandidateView {
    let before = start.add_items(entries.take(k));
    let code = unique_code(before.claimed, entries[k].code);
    CandidateView { word: entries[k].word, code: code, cost: before.connector.sequence_cost(code) }
}

/// Whether a list keeps, for the word of a candidate, a candidate that the
/// given one would not displace.
pub open spec fn keeps_best(kept: Seq<CandidateView>, made: CandidateView) -> bool {
    exists|i: int| word_at(kept, made.word, i) && !cheaper(made.cost, made.code, kept[i])
}

/// Whether one of the first `m` entries made the candidate.
pub open spec fn was_made(
    start: CompileState,
    entries: Seq<EntryView>,
    m: int,
    cand: CandidateView,
) -> bool {
    exists|k: int| 0 <= k < m && #[trigger] made_by(start, entries, k) == cand
}

/// The candidate that one more entry makes.
pub open spec fn made_next(state: CompileState, entry: EntryView) -> CandidateView {
    let code = unique_code(state.claimed, entry.code);
    CandidateView { word: entry.word, code: code, cost: state.connector.sequence_cost(code) }
}

/// What one more entry does to the kept candidates: its word keeps a
/// candidate that the new one would not displace; whatever was the best for
/// a word still is; and nothing is kept but the new candidate and what was
/// kept before.
proof fn lemma_add_item_keeps(state: CompileState, entry: EntryView)
    requires
        state.wf(),
        entry.word.len() > 0,
        entry.code.len() > 0,
    ensures
        keeps_best(state.add_item(entry).kept, made_next(state, entry)),
        forall|mine: CandidateView|
            keeps_best(state.kept, mine) ==> #[trigger] keeps_best(
                state.add_item(entry).kept,
                mine,
            ),
        forall|i: int|
            0 <= i < state.add_item(entry).kept.len() ==> (#[trigger] state.add_item(
                entry,
            ).kept[i]) == made_next(state, entry) || state.kept.contains(
                state.add_item(entry).kept[i],
            ),
{
    let after = state.add_item(entry);
    let made = made_next(state, entry);
    if exists|x: int| word_at(state.kept, entry.word, x) {
        let x = choose|x: int| word_at(state.kept, entry.word, x);
        assert(word_at(after.kept, made.word, x));
        assert forall|mine: CandidateView| keeps_best(state.kept, mine) implies #[trigger] keeps_best(
            after.kept,
            mine,
        ) by {
            let i = choose|i: int|
                word_at(state.kept, mine.word, i) && !cheaper(mine.cost, mine.code, state.kept[i]);
            assert(word_at(after.kept, mine.word, i));
            if i != x {
                assert(after.kept[i] == state.kept[i]);
            }
        }
        assert forall|i: int| 0 <= i < after.kept.len() implies (#[trigger] after.kept[i]) == made
            || state.kept.contains(after.kept[i]) by {
            if after.kept[i] != made {
                assert(after.kept[i] == state.kept[i]);
            }
        }
    } else {
        let n = state.kept.len() as int;
        assert(after.kept[n] == made);
        assert(word_at(after.kept, made.word, n));
        assert forall|mine: CandidateView| keeps_best(state.kept, mine) implies #[trigger] keeps_best(
            after.kept,
            mine,
        ) by {
            let i = choose|i: int|
                word_at(state.kept, mine.word, i) && !cheaper(mine.cost, mine.code, state.kept[i]);
            assert(after.kept[i] == state.kept[i]);
            assert(word_at(after.kept, mine.word, i));
        }
        assert forall|i: int| 0 <= i < after.kept.len() implies (#[trigger] after.kept[i]) == made
            || state.kept.contains(after.kept[i]) by {
            if i < n {
                assert(after.kept[i] == state.kept[i]);
            }
        }
    }
}

/// After the first `m` entries, each of their words keeps the cheapest
/// candidate that any of them made for it, and nothing is kept that none of
/// them made.
pub proof fn lemma_kept_is_cheapest(start: CompileState, entries: Seq<EntryView>, m: int)
    requires
        start.wf(),
        start.kept.len() == 0,
        entries_valid(entries),
        0 <= m <= entries.len(),
    ensures
        start.add_items(entries.take(m)).wf(),
        forall|k: int|
            0 <= k < m ==> keeps_best(
                start.add_items(entries.take(m)).kept,
                #[trigger] made_by(start, entries, k),
            ),
        forall|i: int|
            0 <= i < start.add_items(entries.take(m)).kept.len() ==> was_made(
                start,
                entries,
                m,
                #[trigger] start.add_items(entries.take(m)).kept[i],
            ),
    decreases m,
{
    let now = start.add_items(entries.take(m));
    if m == 0 {
        assert(entries.take(0) =~= Seq::<EntryView>::empty());
    } else {
        lemma_kept_is_cheapest(start, entries, m - 1);
        let before = start.add_items(entries.take(m - 1));
        let e = entries[m - 1];
        assert(entries.take(m).drop_last() =~= entries.take(m - 1));
        assert(entries.take(m).last() == e);
        assert(now == before.add_item(e));
        assert(made_next(before, e) == made_by(start, entries, m - 1));
        lemma_add_item_wf(before, e);
        lemma_add_item_keeps(before, e);
        assert forall|k: int| 0 <= k < m implies keeps_best(
            now.kept,
            #[trigger] made_by(start, entries, k),
        ) by {
            if k < m - 1 {
                assert(keeps_best(before.kept, made_by(start, entries, k)));
            }
        }
        assert forall|i: int| 0 <= i < now.kept.len() implies was_made(
            start,
            entries,
            m,
            #[trigger] now.kept[i],
        ) by {
            if now.kept[i] != made_next(before, e) {
                assert(before.kept.contains(now.kept[i]));
                let j = choose|j: int| 0 <= j < before.kept.len() && before.kept[j] == now.kept[i];
                assert(was_made(start, entries, m - 1, before.kept[j]));
                let k = choose|k: int|
                    0 <= k < m - 1 && #[trigger] made_by(start, entries, k) == before.kept[j];
                assert(made_by(start, entries, k) == now.kept[i]);
            }
        }
    }
}

/// No claim is ever given up: what was claimed stays claimed, in its place,
/// and every entry adds one claim.
pub proof fn lemma_claims_stay(state: CompileState, entries: Seq<EntryView>)
    ensures
        state.add_items(entries).claimed.len() == state.claimed.len() + entries.len(),
        state.add_items(entries).claimed.take(state.claimed.len() as int) == state.claimed,
    decreases entries.len(),
{
    if entries.len() > 0 {
        lemma_claims_stay(state, entries.drop_last());
        let before = state.add_items(entries.drop_last());
        let after = state.add_items(entries);
        assert(after.claimed.take(state.claimed.len() as int) =~= before.claimed.take(
            state.claimed.len() as int,
        ));
    } else {
        assert(state.claimed.take(state.claimed.len() as int) =~= state.claimed);
    }
}

/// Whether every candidate of a list costs what the cost model gives its
/// code.
pub open spec fn costed_by(kept: Seq<CandidateView>, cv: ConnectorView) -> bool {
    forall|i: int| 0 <= i < kept.len() ==> (#[trigger] kept[i]).cost == cv.sequence_cost(kept[i].code)
}

/// Compiling leaves table, fallback and scheme as they are, and every kept
/// candidate costs what the cost model gives its code.
pub proof fn lemma_compiled_costs(state: CompileState, entries: Seq<EntryView>, cv: ConnectorView)
    requires
        same_costs(state.connector, cv),
        costed_by(state.kept, cv),
    ensures
        same_costs(state.add_items(entries).connector, cv),
        costed_by(state.add_items(entries).kept, cv),
    decreases entries.len(),
{
    if entries.len() > 0 {
        lemma_compiled_costs(state, entries.drop_last(), cv);
        let before = state.add_items(entries.drop_last());
        let after = before.add_item(entries.last());
        let code = unique_code(before.claimed, entries.last().code);
        lemma_same_costs_same_sum(before.connector, cv, code);
        lemma_note_sequence_keeps(before.connector, code);
        assert forall|i: int| 0 <= i < after.kept.len() implies (#[trigger] after.kept[i]).cost
            == cv.sequence_cost(after.kept[i].code) by {
            if after.kept[i].code != code || after.kept[i].cost != before.connector.sequence_cost(
                code,
            ) {
                assert(after.kept[i] == before.kept[i]);
            }
        }
    }
}

/// In a compiled dictionary no two candidates share their word, and no two
/// share their code: every entry claims a code that nobody claimed before.
pub proof fn lemma_compiled_unique(connector: ConnectorView, entries: Seq<EntryView>)
    requires
        entries_valid(entries),
    ensures
        dict_of(CompileState::start(connector).add_items(entries).kept).wf(),
        dict_of(CompileState::start(connector).add_items(entries).kept).unique(),
{
    let start = CompileState::start(connector);
    lemma_add_items_wf(start, entries);
    lemma_dict_of(start.add_items(entries).kept);
}

/// Lists that hold the same entries compile to the same dictionary, however
/// they arrange the entries and however often they repeat them.
pub proof fn lemma_same_entries_same_dictionary(
    connector: ConnectorView,
    a: Seq<EntryView>,
    b: Seq<EntryView>,
)
    requires
        words_given(a),
        same_entries(a, b),
    ensures
        CompileState::start(connector).add_items(sorted_entries(a)) == CompileState::start(
            connector,
        ).add_items(sorted_entries(b)),
{
    lemma_order_ignores_arrangement(a, b);
}

/// Compiles the entries of a dictionary source and of a punctuation source;
/// also returns the length of the longest word.
///
/// The entries of both lists are put together, repeated ones dropped, and
/// the rest put in their order; in that order they claim their codes. Fails
/// with `EmptyDictionary` if there is no entry at all.
pub fn load_dict(
    dict_items: &Vec<Entry>,
    punct_items: &Vec<Entry>,
    connector: &mut RouteConnector,
) -> (loaded: Result<(CompiledDictionary, usize), DictionaryError>)
    requires
        entries_valid(entry_views(dict_items@)),
        entries_valid(entry_views(punct_items@)),
        old(connector).wf(),
    ensures
        final(connector).wf(),
        ({
            let all = entry_views(dict_items@) + entry_views(punct_items@);
            let end = CompileState::start(old(connector)@).add_items(sorted_entries(all));
            &&& final(connector)@ == end.connector
            &&& match loaded {
                Ok(made) => {
                    &&& all.len() > 0
                    &&& made.0.wf()
                    &&& made.0@ == dict_of(end.kept)
                    &&& made.0@.unique()
                    &&& made.1 == made.0@.max_word_len
                },
                Err(e) => all.len() == 0 && e == DictionaryError::EmptyDictionary,
            }
        }),
{
    let ghost all = entry_views(dict_items@) + entry_views(punct_items@);
    let mut merged: Vec<Entry> = Vec::new();
    let mut i: usize = 0;
    while i < dict_items.len()
        invariant
            i <= dict_items@.len(),
            merged@.len() == i,
            forall|x: int| 0 <= x < i ==> (#[trigger] merged@[x])@ == dict_items@[x]@,
        decreases dict_items@.len() - i,
    {
        merged.push(dict_items[i].copy());
        i = i + 1;
    }
    let mut j: usize = 0;
    while j < punct_items.len()
        invariant
            i == dict_items@.len(),
            j <= punct_items@.len(),
            merged@.len() == i + j,
            forall|x: int| 0 <= x < i ==> (#[trigger] merged@[x])@ == dict_items@[x]@,
            forall|x: int| i <= x < i + j ==> (#[trigger] merged@[x])@ == punct_items@[x - i]@,
        decreases punct_items@.len() - j,
    {
        merged.push(punct_items[j].copy());
        j = j + 1;
    }
    proof {
        assert(entry_views(merged@) =~= all);
        assert forall|x: int| 0 <= x < merged@.len() implies (#[trigger] merged@[x])@.word.len()
            > 0 by {
            assert(entry_views(merged@)[x] == merged@[x]@);
            if x < dict_items@.len() {
                assert(all[x] == entry_views(dict_items@)[x]);
            } else {
                assert(all[x] == entry_views(punct_items@)[x - dict_items@.len()]);
            }
        }
    }
    let sorted = sort_items(&merged);
    proof {
        let views = entry_views(sorted@);
        assert forall|x: int| 0 <= x < views.len() implies (#[trigger] views[x]).word.len() > 0
            && views[x].code.len() > 0 by {
            assert(views.contains(views[x]));
            let y = choose|y: int| 0 <= y < all.len() && all[y] == views[x];
            if y < dict_items@.len() {
                assert(all[y] == entry_views(dict_items@)[y]);
            } else {
                assert(all[y] == entry_views(punct_items@)[y - dict_items@.len()]);
            }
        }
        let start = CompileState::start(connector@);
        lemma_add_items_wf(start, views);
        lemma_dict_of(start.add_items(views).kept);
        if all.len() > 0 {
            assert(all.contains(all[0]));
            assert(views.contains(all[0]));
        } else if views.len() > 0 {
            assert(views.contains(views[0]));
        }
    }
    let made = convert_items(&sorted, connector);
    if made.0.is_empty() {
        Err(DictionaryError::EmptyDictionary)
    } else {
        Ok(made)
    }
}

} // verus!
