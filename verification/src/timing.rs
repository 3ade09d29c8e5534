//! The pairwise timing table and the rounding from its fine units to the
//! hundredths in which routes are costed.

use std::collections::HashMap;
use std::collections::HashSet;
use vstd::prelude::*;

verus! {

/// Fine units (millionths) in one cost unit (a hundredth).
pub const FINE_PER_COST: u128 = 10_000;

/// Half a cost unit, in fine units: the rounding offset.
pub const HALF_COST: u128 = 5_000;

/// The largest cost, in hundredths, that one key pair can have.
pub const PAIR_COST_MAX: u128 = 429_497;

/// Rounds a sum of fine units to hundredths, half up.
pub open spec fn round_cost(fine: nat) -> nat {
    (fine + HALF_COST as nat) / (FINE_PER_COST as nat)
}

/// The key under which an ordered pair of characters is stored.
pub open spec fn pair_key(a: char, b: char) -> u64 {
    ((a as u64) * 0x1_0000_0000 + (b as u64)) as u64
}

/// Distinct pairs have distinct keys.
pub proof fn lemma_pair_key_injective(a: char, b: char, c: char, d: char)
    ensures
        pair_key(a, b) == pair_key(c, d) <==> (a == c && b == d),
{
    let x: int = a as u64 as int;
    let y: int = b as u64 as int;
    let z: int = c as u64 as int;
    let w: int = d as u64 as int;
    assert(x < 0x11_0000 && y < 0x11_0000 && z < 0x11_0000 && w < 0x11_0000);
    if pair_key(a, b) == pair_key(c, d) {
        assert(x * 0x1_0000_0000 + y == z * 0x1_0000_0000 + w);
        assert(x == z && y == w);
        assert(a as u64 == c as u64);
        assert(b as u64 == d as u64);
    }
}

/// Computes the storage key of a pair.
pub fn key_of(a: char, b: char) -> (k: u64)
    ensures
        k == pair_key(a, b),
{
    let hi: u64 = a as u64;
    let lo: u64 = b as u64;
    hi * 0x1_0000_0000 + lo
}

/// Rounds a sum of fine units to hundredths, half up.
pub fn round_to_cost(fine: u128) -> (cost: u128)
    requires
        fine <= u128::MAX - HALF_COST,
    ensures
        cost == round_cost(fine as nat),
{
    (fine + HALF_COST) / FINE_PER_COST
}

/// The timing table: the cost, in fine units, of each known ordered key pair.
pub struct TimingTable {
    costs: HashMap<u64, u32>,
}

impl View for TimingTable {
    type V = Map<(char, char), u32>;

    closed spec fn view(&self) -> Map<(char, char), u32> {
        Map::new(
            |p: (char, char)| self.costs@.contains_key(pair_key(p.0, p.1)),
            |p: (char, char)| self.costs@[pair_key(p.0, p.1)],
        )
    }
}

impl TimingTable {
    /// An empty table: every pair is unknown.
    pub fn new() -> (table: Self)
        ensures
            table@ == Map::<(char, char), u32>::empty(),
    {
        let table = TimingTable { costs: HashMap::new() };
        assert(table@ =~= Map::<(char, char), u32>::empty());
        table
    }

    /// Records the cost of a pair unless the pair already has one; says
    /// whether it was recorded.
    pub fn insert(&mut self, a: char, b: char, fine: u32) -> (fresh: bool)
        ensures
            fresh == !old(self)@.contains_key((a, b)),
            fresh ==> final(self)@ == old(self)@.insert((a, b), fine),
            !fresh ==> final(self)@ == old(self)@,
    {
        let k: u64 = key_of(a, b);
        if self.costs.contains_key(&k) {
            false
        } else {
            self.costs.insert(k, fine);
            proof {
                assert forall|p: (char, char)|
                    pair_key(p.0, p.1) == k <==> p == (a, b) by {
                    lemma_pair_key_injective(p.0, p.1, a, b);
                }
                assert(self@ =~= old(self)@.insert((a, b), fine));
            }
            true
        }
    }

    /// The cost of a pair, if the table knows it.
    pub fn get(&self, a: char, b: char) -> (found: Option<u32>)
        ensures
            found == (if self@.contains_key((a, b)) {
                Some(self@[(a, b)])
            } else {
                None
            }),
    {
        let k: u64 = key_of(a, b);
        match self.costs.get(&k) {
            Some(v) => Some(*v),
            None => None,
        }
    }

    /// A copy of the table.
    pub fn clone(&self) -> (copy: Self)
        ensures
            copy@ == self@,
    {
        let copy = TimingTable { costs: self.costs.clone() };
        assert(copy@ =~= self@);
        copy
    }
}

/// The keys of the pairs that a list holds.
pub open spec fn keys_of(pairs: Seq<(char, char)>) -> Set<u64> {
    Set::new(
        |k: u64|
            exists|i: int|
                0 <= i < pairs.len() && #[trigger] pair_key(pairs[i].0, pairs[i].1) == k,
    )
}

/// A list of pairs after one more pair was met: the pair goes to the end
/// unless the list has it.
pub open spec fn note_pair(pairs: Seq<(char, char)>, a: char, b: char) -> Seq<(char, char)> {
    if pairs.contains((a, b)) {
        pairs
    } else {
        pairs.push((a, b))
    }
}

/// The key pairs for which no cost was found, each once, in the order in
/// which they were first met.
pub struct UnknownPairs {
    order: Vec<(char, char)>,
    seen: HashSet<u64>,
}

impl View for UnknownPairs {
    type V = Seq<(char, char)>;

    closed spec fn view(&self) -> Seq<(char, char)> {
        self.order@
    }
}

impl UnknownPairs {
    /// No pair occurs twice, and the key set mirrors the list.
    pub closed spec fn wf(&self) -> bool {
        &&& self.order@.no_duplicates()
        &&& self.seen@ =~= keys_of(self.order@)
    }

    /// A well-formed collection lists no pair twice.
    pub proof fn lemma_distinct(&self)
        requires
            self.wf(),
        ensures
            self@.no_duplicates(),
    {
    }

    /// The empty collection.
    pub fn new() -> (unknown: Self)
        ensures
            unknown.wf(),
            unknown@ == Seq::<(char, char)>::empty(),
    {
        UnknownPairs { order: Vec::new(), seen: HashSet::new() }
    }

    /// Records a pair unless it is already there.
    pub fn note(&mut self, a: char, b: char)
        requires
            old(self).wf(),
        ensures
            final(self).wf(),
            final(self)@ == note_pair(old(self)@, a, b),
    {
        let k: u64 = key_of(a, b);
        proof {
            assert forall|i: int| 0 <= i < self.order@.len() implies (#[trigger] pair_key(
                self.order@[i].0,
                self.order@[i].1,
            ) == k <==> self.order@[i] == (a, b)) by {
                lemma_pair_key_injective(self.order@[i].0, self.order@[i].1, a, b);
            }
        }
        if self.seen.contains(&k) {
            proof {
                assert(keys_of(self.order@).contains(k));
                let i = choose|i: int|
                    0 <= i < self.order@.len() && #[trigger] pair_key(
                        self.order@[i].0,
                        self.order@[i].1,
                    ) == k;
                assert(self.order@[i] == (a, b));
            }
        } else {
            proof {
                if self.order@.contains((a, b)) {
                    let i = choose|i: int| 0 <= i < self.order@.len() && self.order@[i] == (a, b);
                    assert(pair_key(self.order@[i].0, self.order@[i].1) == k);
                    assert(keys_of(self.order@).contains(k));
                }
            }
            let ghost before = self.order@;
            self.order.push((a, b));
            self.seen.insert(k);
            proof {
                let after = self.order@;
                assert(after[before.len() as int] == (a, b));
                assert forall|x: u64| keys_of(after).contains(x) <==> (keys_of(before).contains(x)
                    || x == k) by {
                    if keys_of(after).contains(x) {
                        let i = choose|i: int|
                            0 <= i < after.len() && #[trigger] pair_key(after[i].0, after[i].1)
                                == x;
                        if i < before.len() {
                            assert(before[i] == after[i]);
                            assert(pair_key(before[i].0, before[i].1) == x);
                        }
                    }
                    if keys_of(before).contains(x) {
                        let i = choose|i: int|
                            0 <= i < before.len() && #[trigger] pair_key(before[i].0, before[i].1)
                                == x;
                        assert(after[i] == before[i]);
                        assert(pair_key(after[i].0, after[i].1) == x);
                    }
                    if x == k {
                        let i = before.len() as int;
                        assert(pair_key(after[i].0, after[i].1) == x);
                    }
                }
                assert(self.seen@ =~= keys_of(after));
            }
        }
    }

    /// How many distinct pairs were recorded.
    pub fn len(&self) -> (n: usize)
        ensures
            n == self@.len(),
    {
        self.order.len()
    }

    /// The recorded pairs, in the order in which they were first met.
    pub fn pairs(&self) -> (list: Vec<(char, char)>)
        ensures
            list@ == self@,
    {
        let mut list: Vec<(char, char)> = Vec::new();
        let mut i: usize = 0;
        while i < self.order.len()
            invariant
                i <= self.order@.len(),
                list@ == self.order@.take(i as int),
            decreases self.order@.len() - i,
        {
            list.push(self.order[i]);
            i = i + 1;
            assert(list@ =~= self.order@.take(i as int));
        }
        assert(self.order@.take(i as int) =~= self.order@);
        list
    }

    /// A copy of the collection.
    pub fn clone(&self) -> (copy: Self)
        requires
            self.wf(),
        ensures
            copy.wf(),
            copy@ == self@,
    {
        let mut copy = UnknownPairs::new();
        let mut i: usize = 0;
        while i < self.order.len()
            invariant
                self.wf(),
                copy.wf(),
                i <= self.order@.len(),
                copy@ == self.order@.take(i as int),
            decreases self.order@.len() - i,
        {
            let p: (char, char) = self.order[i];
            proof {
                if copy@.contains(p) {
                    let j = choose|j: int| 0 <= j < copy@.len() && copy@[j] == p;
                    assert(self.order@[j] == self.order@[i as int]);
                }
            }
            copy.note(p.0, p.1);
            i = i + 1;
            assert(copy@ =~= self.order@.take(i as int));
        }
        assert(self.order@.take(i as int) =~= self.order@);
        copy
    }
}

} // verus!
