//! A list of distinct character sequences that can be searched in constant
//! expected time.

use crate::chars::same_chars;
use std::collections::HashMap;
use vstd::prelude::*;

verus! {

/// The modulus of the hash: the largest prime below 2^32.
const HASH_MODULUS: u64 = 4_294_967_291;

/// The hash of a character sequence.
closed spec fn hash_of(s: Seq<char>) -> u64
    decreases s.len(),
{
    if s.len() == 0 {
        0
    } else {
        ((hash_of(s.drop_last()) * 31 + (s.last() as u64)) % (HASH_MODULUS as int)) as u64
    }
}

/// The number of a character.
fn code_point(c: char) -> (n: u64)
    ensures
        n == c as u64,
        n < 0x11_0000,
{
    c as u64
}

/// Computes the hash of a character sequence.
fn hash_chars(s: &Vec<char>) -> (h: u64)
    ensures
        h == hash_of(s@),
{
    let mut h: u64 = 0;
    let mut i: usize = 0;
    assert(s@.take(0) =~= Seq::<char>::empty());
    while i < s.len()
        invariant
            i <= s@.len(),
            h == hash_of(s@.take(i as int)),
            h < HASH_MODULUS,
        decreases s@.len() - i,
    {
        let c: char = s[i];
        proof {
            assert(s@.take(i + 1).drop_last() =~= s@.take(i as int));
            assert(s@.take(i + 1).last() == c);
        }
        h = (h * 31 + code_point(c)) % HASH_MODULUS;
        i = i + 1;
    }
    assert(s@.take(i as int) =~= s@);
    h
}

/// A list of distinct character sequences, in the order in which they were
/// added, with an index by hash.
pub struct SeqTable {
    keys: Vec<Vec<char>>,
    buckets: HashMap<u64, Vec<usize>>,
}

impl View for SeqTable {
    type V = Seq<Seq<char>>;

    closed spec fn view(&self) -> Seq<Seq<char>> {
        Seq::new(self.keys@.len(), |i: int| self.keys@[i]@)
    }
}

impl SeqTable {
    /// No sequence occurs twice; every position is listed under the hash of
    /// its sequence, and the index lists positions only.
    pub closed spec fn wf(&self) -> bool {
        &&& self@.no_duplicates()
        &&& forall|i: int|
            0 <= i < self.keys@.len() ==> {
                &&& self.buckets@.contains_key(#[trigger] hash_of(self.keys@[i]@))
                &&& self.buckets@[hash_of(self.keys@[i]@)]@.contains(i as usize)
            }
        &&& forall|h: u64, j: int|
            self.buckets@.contains_key(h) && 0 <= j < self.buckets@[h]@.len() ==> (
            #[trigger] self.buckets@[h]@[j]) < self.keys@.len()
    }

    /// A well-formed table lists no sequence twice.
    pub proof fn lemma_distinct(&self)
        requires
            self.wf(),
        ensures
            self@.no_duplicates(),
            self@.len() <= usize::MAX,
    {
        assert(self.keys@.len() == self.keys.len());
    }

    /// The empty table.
    pub fn new() -> (table: Self)
        ensures
            table.wf(),
            table@ == Seq::<Seq<char>>::empty(),
    {
        let table = SeqTable { keys: Vec::new(), buckets: HashMap::new() };
        assert(table@ =~= Seq::<Seq<char>>::empty());
        table
    }

    /// How many sequences the table holds.
    pub fn len(&self) -> (n: usize)
        ensures
            n == self@.len(),
    {
        self.keys.len()
    }

    /// The sequence at a position.
    pub fn get(&self, i: usize) -> (key: &Vec<char>)
        requires
            i < self@.len(),
        ensures
            key@ == self@[i as int],
    {
        &self.keys[i]
    }

    /// The position of a sequence, if the table holds it.
    pub fn find(&self, key: &Vec<char>) -> (found: Option<usize>)
        requires
            self.wf(),
        ensures
            match found {
                Some(i) => i < self@.len() && self@[i as int] == key@,
                None => !self@.contains(key@),
            },
    {
        let h: u64 = hash_chars(key);
        match self.buckets.get(&h) {
            None => {
                proof {
                    if self@.contains(key@) {
                        let i = choose|i: int| 0 <= i < self@.len() && self@[i] == key@;
                        assert(self@[i] == self.keys@[i]@);
                        assert(self.buckets@.contains_key(hash_of(self.keys@[i]@)));
                    }
                }
                None
            },
            Some(bucket) => {
                let mut j: usize = 0;
                while j < bucket.len()
                    invariant
                        self.wf(),
                        j <= bucket@.len(),
                        self.buckets@.contains_key(h),
                        *bucket == self.buckets@[h],
                        h == hash_of(key@),
                        forall|k: int| 0 <= k < j ==> self@[bucket@[k] as int] != key@,
                    decreases bucket@.len() - j,
                {
                    let at: usize = bucket[j];
                    if same_chars(&self.keys[at], key) {
                        assert(self@[at as int] == self.keys@[at as int]@);
                        return Some(at);
                    }
                    j = j + 1;
                }
                proof {
                    if self@.contains(key@) {
                        let i = choose|i: int| 0 <= i < self@.len() && self@[i] == key@;
                        assert(self@[i] == self.keys@[i]@);
                        assert(self.keys@.len() == self.keys.len());
                        assert(self.buckets@[hash_of(self.keys@[i]@)]@.contains(i as usize));
                        let k = choose|k: int|
                            0 <= k < bucket@.len() && bucket@[k] == i as usize;
                        assert(self@[bucket@[k] as int] != key@);
                    }
                }
                None
            },
        }
    }

    /// Adds a sequence that the table does not hold; returns its position.
    pub fn add(&mut self, key: Vec<char>) -> (at: usize)
        requires
            old(self).wf(),
            !old(self)@.contains(key@),
        ensures
            final(self).wf(),
            final(self)@ == old(self)@.push(key@),
            at == old(self)@.len(),
    {
        let h: u64 = hash_chars(&key);
        let at: usize = self.keys.len();
        let mut bucket: Vec<usize> = match self.buckets.remove(&h) {
            Some(b) => b,
            None => Vec::new(),
        };
        let ghost before = bucket@;
        bucket.push(at);
        self.buckets.insert(h, bucket);
        self.keys.push(key);
        proof {
            assert(self@ =~= old(self)@.push(key@));
            assert(bucket@[before.len() as int] == at);
            assert forall|i: int| 0 <= i < self.keys@.len() implies {
                &&& self.buckets@.contains_key(#[trigger] hash_of(self.keys@[i]@))
                &&& self.buckets@[hash_of(self.keys@[i]@)]@.contains(i as usize)
            } by {
                if i < at {
                    let hi = hash_of(old(self).keys@[i]@);
                    assert(self.keys@[i] == old(self).keys@[i]);
                    assert(old(self).buckets@[hi]@.contains(i as usize));
                    if hi == h {
                        let k = choose|k: int| 0 <= k < before.len() && before[k] == i as usize;
                        assert(bucket@[k] == i as usize);
                    }
                }
            }
            assert forall|x: u64, j: int|
                self.buckets@.contains_key(x) && 0 <= j < self.buckets@[x]@.len() implies (
            #[trigger] self.buckets@[x]@[j]) < self.keys@.len() by {
                if x == h {
                    if j < before.len() {
                        assert(before[j] == old(self).buckets@[h]@[j]);
                    }
                } else {
                    assert(self.buckets@[x] == old(self).buckets@[x]);
                    assert(old(self).buckets@[x]@[j] < old(self).keys@.len());
                }
            }
            assert(self@.no_duplicates()) by {
                assert forall|i: int, j: int|
                    0 <= i < self@.len() && 0 <= j < self@.len() && i != j implies self@[i]
                    != self@[j] by {
                    if i < at && j < at {
                        assert(old(self)@[i] != old(self)@[j]);
                    } else if i < at {
                        assert(old(self)@.contains(old(self)@[i]));
                    } else {
                        assert(old(self)@.contains(old(self)@[j]));
                    }
                }
            }
        }
        at
    }
}

} // verus!
