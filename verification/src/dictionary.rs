//! The compiled dictionary: for each character, the candidates whose word
//! starts with it.

use crate::chars::{copy_chars, lemma_char_number};
use std::collections::HashMap;
use vstd::prelude::*;

verus! {

/// A word with the code that types it and what the code costs.
#[derive(Debug, PartialEq, Eq)]
pub struct Candidate {
    /// The characters that the code types.
    pub word: Vec<char>,
    /// The keystrokes that type the word.
    pub code: Vec<char>,
    /// What the code costs, in hundredths.
    pub cost: u128,
}

/// The mathematical content of a candidate.
pub struct CandidateView {
    /// The characters that the code types.
    pub word: Seq<char>,
    /// The keystrokes that type the word.
    pub code: Seq<char>,
    /// What the code costs, in hundredths.
    pub cost: nat,
}

impl CandidateView {
    /// Neither the word nor the code is empty.
    pub open spec fn wf(self) -> bool {
        self.word.len() > 0 && self.code.len() > 0
    }
}

impl View for Candidate {
    type V = CandidateView;

    open spec fn view(&self) -> CandidateView {
        CandidateView { word: self.word@, code: self.code@, cost: self.cost as nat }
    }
}

impl Candidate {
    /// A copy of the candidate.
    pub fn copy(&self) -> (copy: Candidate)
        ensures
            copy@ == self@,
    {
        Candidate { word: copy_chars(&self.word), code: copy_chars(&self.code), cost: self.cost }
    }
}

/// The views of a list of candidates.
pub open spec fn candidate_views(list: Seq<Candidate>) -> Seq<CandidateView> {
    Seq::new(list.len(), |i: int| list[i]@)
}

/// The mathematical content of a compiled dictionary.
pub struct DictionaryView {
    /// For each character, the candidates whose word starts with it, in the
    /// order in which their words were first met.
    pub groups: Map<char, Seq<CandidateView>>,
    /// No word is longer than this.
    pub max_word_len: nat,
    /// No code costs more than this.
    pub max_cost: nat,
    /// No character has more candidates than this.
    pub max_group_len: nat,
}

impl DictionaryView {
    /// The dictionary without candidates.
    pub open spec fn empty() -> DictionaryView {
        DictionaryView { groups: Map::empty(), max_word_len: 0, max_cost: 0, max_group_len: 0 }
    }

    /// Whether the dictionary holds `cand` at place `i` under `c`.
    pub open spec fn holds(self, c: char, i: int, cand: CandidateView) -> bool {
        self.groups.contains_key(c) && 0 <= i < self.groups[c].len() && self.groups[c][i] == cand
    }

    /// Whether the dictionary holds `cand`, under the first character of its
    /// word.
    pub open spec fn lists(self, cand: CandidateView) -> bool {
        exists|i: int| self.holds(cand.word[0], i, cand)
    }

    /// Every candidate stands under the first character of its word, which
    /// like its code is not empty, and within the three bounds.
    pub open spec fn wf(self) -> bool {
        forall|c: char, i: int|
            self.groups.contains_key(c) && 0 <= i < self.groups[c].len() ==> {
                let cand = #[trigger] self.groups[c][i];
                &&& cand.wf()
                &&& cand.word[0] == c
                &&& cand.word.len() <= self.max_word_len
                &&& cand.cost <= self.max_cost
                &&& self.groups[c].len() <= self.max_group_len
            }
    }

    /// No two candidates share their word, and no two share their code.
    pub open spec fn unique(self) -> bool {
        forall|c: char, i: int, d: char, j: int|
            self.groups.contains_key(c) && 0 <= i < self.groups[c].len()
                && self.groups.contains_key(d) && 0 <= j < self.groups[d].len() && (c != d || i
                != j) ==> {
                &&& (#[trigger] self.groups[c][i]).word != (#[trigger] self.groups[d][j]).word
                &&& self.groups[c][i].code != self.groups[d][j].code
            }
    }

    /// The candidates under a character: none where the dictionary has no
    /// word that starts with it.
    pub open spec fn candidates(self, c: char) -> Seq<CandidateView> {
        if self.groups.contains_key(c) {
            self.groups[c]
        } else {
            Seq::empty()
        }
    }

    /// The dictionary with one more candidate, which goes to the end of the
    /// list under the first character of its word.
    pub open spec fn insert(self, cand: CandidateView) -> DictionaryView {
        DictionaryView {
            groups: self.groups.insert(cand.word[0], self.candidates(cand.word[0]).push(cand)),
            max_word_len: if cand.word.len() > self.max_word_len {
                cand.word.len()
            } else {
                self.max_word_len
            },
            max_cost: if cand.cost > self.max_cost {
                cand.cost
            } else {
                self.max_cost
            },
            max_group_len: if self.candidates(cand.word[0]).len() + 1 > self.max_group_len {
                self.candidates(cand.word[0]).len() + 1
            } else {
                self.max_group_len
            },
        }
    }
}

/// The key under which the candidates of a character are stored.
spec fn char_key(c: char) -> u32 {
    c as u32
}

/// Computes the key of a character.
fn group_key(c: char) -> (k: u32)
    ensures
        k == char_key(c),
{
    c as u32
}

/// The compiled dictionary.
pub struct CompiledDictionary {
    groups: HashMap<u32, Vec<Candidate>>,
    max_word_len: usize,
    max_cost: u128,
    max_group_len: usize,
}

impl View for CompiledDictionary {
    type V = DictionaryView;

    closed spec fn view(&self) -> DictionaryView {
        DictionaryView {
            groups: Map::new(
                |c: char| self.groups@.contains_key(char_key(c)),
                |c: char| candidate_views(self.groups@[char_key(c)]@),
            ),
            max_word_len: self.max_word_len as nat,
            max_cost: self.max_cost as nat,
            max_group_len: self.max_group_len as nat,
        }
    }
}

impl CompiledDictionary {
    /// Every list stands under the number of a character, and the content is
    /// well formed.
    pub closed spec fn wf(&self) -> bool {
        &&& forall|k: u32| #[trigger]
            self.groups@.contains_key(k) ==> exists|c: char| #[trigger] char_key(c) == k
        &&& self@.wf()
    }

    /// A well-formed dictionary has a well-formed content.
    pub proof fn lemma_wf(&self)
        requires
            self.wf(),
        ensures
            self@.wf(),
    {
    }

    /// The dictionary without candidates.
    pub fn new() -> (dict: Self)
        ensures
            dict.wf(),
            dict@ == DictionaryView::empty(),
    {
        let dict = CompiledDictionary {
            groups: HashMap::new(),
            max_word_len: 0,
            max_cost: 0,
            max_group_len: 0,
        };
        assert(dict@.groups =~= Map::<char, Seq<CandidateView>>::empty());
        dict
    }

    /// Adds a candidate at the end of the list under the first character of
    /// its word.
    pub fn insert(&mut self, cand: Candidate)
        requires
            old(self).wf(),
            cand@.wf(),
        ensures
            final(self).wf(),
            final(self)@ == old(self)@.insert(cand@),
    {
        let c: char = cand.word[0];
        let k: u32 = group_key(c);
        if cand.word.len() > self.max_word_len {
            self.max_word_len = cand.word.len();
        }
        if cand.cost > self.max_cost {
            self.max_cost = cand.cost;
        }
        let mut group: Vec<Candidate> = match self.groups.remove(&k) {
            Some(g) => g,
            None => Vec::new(),
        };
        let ghost before = group@;
        group.push(cand);
        if group.len() > self.max_group_len {
            self.max_group_len = group.len();
        }
        self.groups.insert(k, group);
        proof {
            let want = old(self)@.insert(cand@);
            assert(candidate_views(before) =~= old(self)@.candidates(c));
            assert(candidate_views(group@) =~= candidate_views(before).push(cand@));
            assert forall|d: char|
                (#[trigger] self@.groups.dom().contains(d)) == want.groups.dom().contains(d) && (
                self@.groups.contains_key(d) ==> self@.groups[d] == want.groups[d]) by {
                lemma_char_number(d, c);
                if d != c {
                    assert(char_key(d) != k);
                    assert(self.groups@.contains_key(char_key(d)) == old(
                        self,
                    ).groups@.contains_key(char_key(d)));
                } else {
                    assert(self.groups@[k] == group);
                }
            }
            assert(self@.groups.dom() =~= want.groups.dom());
            assert(self@.groups =~= want.groups);
            assert forall|d: char, i: int|
                self@.groups.contains_key(d) && 0 <= i < self@.groups[d].len() implies {
                let x = #[trigger] self@.groups[d][i];
                &&& x.wf()
                &&& x.word[0] == d
                &&& x.word.len() <= self@.max_word_len
                &&& x.cost <= self@.max_cost
                &&& self@.groups[d].len() <= self@.max_group_len
            } by {
                lemma_char_number(d, c);
                if d == c && i == before.len() {
                } else {
                    assert(old(self)@.groups.contains_key(d));
                    assert(self@.groups[d][i] == old(self)@.groups[d][i]);
                }
            }
        }
    }

    /// The candidates whose word starts with `c`, if there are any.
    pub fn lookup(&self, c: char) -> (found: Option<&Vec<Candidate>>)
        ensures
            match found {
                Some(group) => self@.groups.contains_key(c) && candidate_views(group@)
                    == self@.groups[c],
                None => !self@.groups.contains_key(c),
            },
    {
        let k: u32 = group_key(c);
        self.groups.get(&k)
    }

    /// Whether the dictionary has no candidate.
    pub fn is_empty(&self) -> (empty: bool)
        requires
            self.wf(),
        ensures
            empty == (self@.groups =~= Map::<char, Seq<CandidateView>>::empty()),
    {
        let empty: bool = self.groups.is_empty();
        proof {
            if empty {
                assert(self@.groups =~= Map::<char, Seq<CandidateView>>::empty());
            } else {
                let k = choose|k: u32| self.groups@.contains_key(k);
                let c = choose|c: char| #[trigger] char_key(c) == k;
                assert(self@.groups.contains_key(c));
            }
        }
        empty
    }

    /// The length of the longest word that was added.
    pub fn max_word_len(&self) -> (n: usize)
        ensures
            n == self@.max_word_len,
    {
        self.max_word_len
    }

    /// The length of the longest list of candidates under one character.
    pub fn max_group_len(&self) -> (n: usize)
        ensures
            n == self@.max_group_len,
    {
        self.max_group_len
    }

    /// The highest cost among the candidates that were added.
    pub fn max_cost(&self) -> (cost: u128)
        ensures
            cost == self@.max_cost,
    {
        self.max_cost
    }
}

} // verus!
