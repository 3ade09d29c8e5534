//! Unique codes: an entry whose code is taken gets the first free candidate
//! among the code followed by a selection digit, page after page.

use crate::chars::copy_chars;
use crate::seq_table::SeqTable;
use vstd::prelude::*;
use vstd::seq_lib::seq_to_set_is_finite;

verus! {

/// The page-turn marker: it stands for one exhausted page of candidates.
pub const PAGE_MARK: char = '=';

/// How many candidates one page offers: the bare code, then the digits 2 to 9.
pub const PAGE_SIZE: usize = 9;

/// The digit that selects the candidate in slot `r` of a page, for the slots
/// 1 to 8: `'2'` to `'9'`.
pub open spec fn slot_digit(r: int) -> char {
    if r == 1 {
        '2'
    } else if r == 2 {
        '3'
    } else if r == 3 {
        '4'
    } else if r == 4 {
        '5'
    } else if r == 5 {
        '6'
    } else if r == 6 {
        '7'
    } else if r == 7 {
        '8'
    } else {
        '9'
    }
}

/// `p` page-turn markers.
pub open spec fn marks(p: nat) -> Seq<char> {
    Seq::new(p, |i: int| PAGE_MARK)
}

/// The `k`-th candidate for a code: the code, one marker for each page
/// turned, and the selection digit unless the candidate is the first of its
/// page.
pub open spec fn candidate(code: Seq<char>, k: nat) -> Seq<char> {
    let page = code + marks(k / (PAGE_SIZE as nat));
    if k % (PAGE_SIZE as nat) == 0 {
        page
    } else {
        page.push(slot_digit((k % (PAGE_SIZE as nat)) as int))
    }
}

/// Whether candidate `k` is free and every earlier candidate is claimed.
pub open spec fn first_free(claimed: Seq<Seq<char>>, code: Seq<char>, k: nat) -> bool {
    &&& !claimed.contains(candidate(code, k))
    &&& forall|j: nat| j < k ==> claimed.contains(#[trigger] candidate(code, j))
}

/// The unique code for `code`: its first candidate that is not claimed.
pub open spec fn unique_code(claimed: Seq<Seq<char>>, code: Seq<char>) -> Seq<char> {
    candidate(code, choose|k: nat| first_free(claimed, code, k))
}

/// Different candidates for one code are different sequences.
pub proof fn lemma_candidate_injective(code: Seq<char>, k1: nat, k2: nat)
    requires
        candidate(code, k1) == candidate(code, k2),
    ensures
        k1 == k2,
{
    let page_a = k1 / 9;
    let slot_a = k1 % 9;
    let page_b = k2 / 9;
    let slot_b = k2 % 9;
    let c1 = candidate(code, k1);
    let c2 = candidate(code, k2);
    assert(c1.len() == c2.len());
    if page_a == page_b {
        if slot_a != 0 && slot_b != 0 {
            assert(c1.last() == slot_digit(slot_a as int));
            assert(c2.last() == slot_digit(slot_b as int));
        }
    } else if page_a < page_b {
        let at = (code.len() + page_a) as int;
        assert(c1[at] == slot_digit(slot_a as int));
        assert(c2[at] == PAGE_MARK);
    } else {
        let at = (code.len() + page_b) as int;
        assert(c2[at] == slot_digit(slot_b as int));
        assert(c1[at] == PAGE_MARK);
    }
}

/// At most one candidate is the first free one.
pub proof fn lemma_first_free_unique(claimed: Seq<Seq<char>>, code: Seq<char>, k1: nat, k2: nat)
    requires
        first_free(claimed, code, k1),
        first_free(claimed, code, k2),
    ensures
        k1 == k2,
{
    if k1 < k2 {
        assert(claimed.contains(candidate(code, k1)));
    }
    if k2 < k1 {
        assert(claimed.contains(candidate(code, k2)));
    }
}

/// Some candidate is free, given that the first `k` are claimed and
/// `remaining` holds the claimed codes that are none of these.
proof fn lemma_free_from(
    claimed: Seq<Seq<char>>,
    code: Seq<char>,
    k: nat,
    remaining: Set<Seq<char>>,
)
    requires
        forall|j: nat| j < k ==> claimed.contains(#[trigger] candidate(code, j)),
        remaining.finite(),
        forall|c: Seq<char>|
            remaining.contains(c) <==> (claimed.contains(c) && forall|j: nat|
                j < k ==> #[trigger] candidate(code, j) != c),
    ensures
        exists|n: nat| first_free(claimed, code, n),
    decreases remaining.len(),
{
    let cur = candidate(code, k);
    if !claimed.contains(cur) {
        assert(first_free(claimed, code, k));
    } else {
        assert(remaining.contains(cur)) by {
            assert forall|j: nat| j < k implies #[trigger] candidate(code, j) != cur by {
                if candidate(code, j) == cur {
                    lemma_candidate_injective(code, j, k);
                }
            }
        }
        let fewer = remaining.remove(cur);
        assert forall|c: Seq<char>|
            fewer.contains(c) <==> (claimed.contains(c) && forall|j: nat|
                j < k + 1 ==> #[trigger] candidate(code, j) != c) by {
            if claimed.contains(c) && forall|j: nat|
                j < k + 1 ==> #[trigger] candidate(code, j) != c {
                assert(candidate(code, k) != c);
                assert(remaining.contains(c));
            }
        }
        lemma_free_from(claimed, code, k + 1, fewer);
    }
}

/// Whatever was claimed, some candidate for a code is still free.
pub proof fn lemma_first_free_exists(claimed: Seq<Seq<char>>, code: Seq<char>)
    ensures
        exists|n: nat| first_free(claimed, code, n),
        !claimed.contains(unique_code(claimed, code)),
        unique_code(claimed, code).len() >= code.len(),
{
    seq_to_set_is_finite(claimed);
    lemma_free_from(claimed, code, 0, claimed.to_set());
    let n = choose|n: nat| first_free(claimed, code, n);
    lemma_unique_code_free(claimed, code, n);
}

/// A unique code is claimed by nobody, and is never empty where the code is
/// not.
pub proof fn lemma_unique_code_free(claimed: Seq<Seq<char>>, code: Seq<char>, k: nat)
    requires
        first_free(claimed, code, k),
    ensures
        unique_code(claimed, code) == candidate(code, k),
        !claimed.contains(unique_code(claimed, code)),
        unique_code(claimed, code).len() >= code.len(),
{
    let chosen = choose|k: nat| first_free(claimed, code, k);
    lemma_first_free_unique(claimed, code, k, chosen);
}

/// The selection digit of a slot.
fn digit_of(slot: u8) -> (digit: char)
    requires
        1 <= slot <= 8,
    ensures
        digit == slot_digit(slot as int),
{
    if slot == 1 {
        '2'
    } else if slot == 2 {
        '3'
    } else if slot == 3 {
        '4'
    } else if slot == 4 {
        '5'
    } else if slot == 5 {
        '6'
    } else if slot == 6 {
        '7'
    } else if slot == 7 {
        '8'
    } else {
        '9'
    }
}

/// Finds the unique code for `code` and claims it for good.
///
/// A code that nobody has claimed is taken as it is. Otherwise the digits
/// `2` to `9` are tried behind it; when a page is exhausted the digit gives
/// way to a page-turn marker, and the next page starts.
pub fn get_unique_code(claimed: &mut SeqTable, code: &Vec<char>) -> (unique: Vec<char>)
    requires
        old(claimed).wf(),
    ensures
        final(claimed).wf(),
        unique@ == unique_code(old(claimed)@, code@),
        final(claimed)@ == old(claimed)@.push(unique@),
{
    let mut cur = copy_chars(code);
    let mut slot: u8 = 0;
    let ghost mut k: nat = 0;
    let ghost mut remaining: Set<Seq<char>> = claimed@.to_set();
    proof {
        seq_to_set_is_finite(claimed@);
        assert(marks(0) =~= Seq::<char>::empty());
        assert(cur@ =~= candidate(code@, 0));
    }
    loop
        invariant
            claimed.wf(),
            *claimed == *old(claimed),
            cur@ == candidate(code@, k),
            slot == k % 9,
            forall|j: nat| j < k ==> claimed@.contains(#[trigger] candidate(code@, j)),
            remaining.finite(),
            forall|c: Seq<char>|
                remaining.contains(c) <==> (claimed@.contains(c) && forall|j: nat|
                    j < k ==> #[trigger] candidate(code@, j) != c),
        ensures
            !claimed@.contains(cur@),
        decreases remaining.len(),
    {
        let found = claimed.find(&cur);
        if found.is_none() {
            break ;
        }
        proof {
            assert(remaining.contains(cur@)) by {
                assert forall|j: nat| j < k implies #[trigger] candidate(code@, j) != cur@ by {
                    if candidate(code@, j) == cur@ {
                        lemma_candidate_injective(code@, j, k);
                    }
                }
            }
            let fewer = remaining.remove(cur@);
            assert forall|c: Seq<char>|
                fewer.contains(c) <==> (claimed@.contains(c) && forall|j: nat|
                    j < k + 1 ==> #[trigger] candidate(code@, j) != c) by {
                if claimed@.contains(c) && forall|j: nat|
                    j < k + 1 ==> #[trigger] candidate(code@, j) != c {
                    assert(candidate(code@, k) != c);
                    assert(remaining.contains(c));
                }
            }
            remaining = fewer;
            assert(marks((k / 9) as nat).push(PAGE_MARK) =~= marks((k / 9 + 1) as nat));
        }
        if slot == 0 {
            cur.push('2');
            slot = 1;
        } else if slot < 8 {
            cur.pop();
            cur.push(digit_of(slot + 1));
            slot = slot + 1;
        } else {
            cur.pop();
            cur.push(PAGE_MARK);
            slot = 0;
        }
        proof {
            assert(cur@ =~= candidate(code@, k + 1));
            k = k + 1;
        }
    }
    proof {
        assert(first_free(claimed@, code@, k));
        lemma_unique_code_free(claimed@, code@, k);
    }
    let unique = copy_chars(&cur);
    claimed.add(cur);
    unique
}

} // verus!
