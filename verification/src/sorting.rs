//! The order of dictionary entries at work: a merge sort over the positions
//! of a list, and the one list that holds given entries in their order.

use crate::entry::{
    entry_before, lemma_entry_asymmetric, lemma_entry_total, lemma_entry_transitive, precedes,
    strictly_sorted, Entry, EntryView,
};
use vstd::prelude::*;

verus! {

/// Every entry of a list has a word that is not empty.
pub open spec fn words_present(entries: Seq<Entry>) -> bool {
    forall|i: int| 0 <= i < entries.len() ==> (#[trigger] entries[i])@.word.len() > 0
}

/// The entry that a position of an ordering stands for.
pub open spec fn item(entries: Seq<Entry>, order: Seq<usize>, i: int) -> EntryView {
    entries[order[i] as int]@
}

/// Every position of the ordering stands for an entry.
pub open spec fn in_range(entries: Seq<Entry>, order: Seq<usize>) -> bool {
    forall|i: int| 0 <= i < order.len() ==> (#[trigger] order[i]) < entries.len()
}

/// Along the ordering no entry comes before an earlier one.
pub open spec fn ascending(entries: Seq<Entry>, order: Seq<usize>) -> bool {
    forall|i: int, j: int|
        0 <= i < j < order.len() ==> !entry_before(
            #[trigger] item(entries, order, j),
            #[trigger] item(entries, order, i),
        )
}

/// If `b` does not come before `a`, nor `c` before `b`, then `c` does not
/// come before `a`.
pub proof fn lemma_not_before_transitive(a: EntryView, b: EntryView, c: EntryView)
    requires
        a.word.len() > 0,
        b.word.len() > 0,
        c.word.len() > 0,
        !entry_before(b, a),
        !entry_before(c, b),
    ensures
        !entry_before(c, a),
{
    if entry_before(c, a) {
        lemma_entry_total(b, c);
        if entry_before(b, c) {
            lemma_entry_transitive(b, c, a);
        }
    }
}

/// Merges two ascending orderings into one.
fn merge_runs(entries: &Vec<Entry>, left: &Vec<usize>, right: &Vec<usize>) -> (out: Vec<usize>)
    requires
        words_present(entries@),
        in_range(entries@, left@),
        in_range(entries@, right@),
        ascending(entries@, left@),
        ascending(entries@, right@),
    ensures
        in_range(entries@, out@),
        ascending(entries@, out@),
        forall|x: usize| out@.contains(x) <==> (left@.contains(x) || right@.contains(x)),
{
    let mut out: Vec<usize> = Vec::new();
    let mut i: usize = 0;
    let mut j: usize = 0;
    while i < left.len() || j < right.len()
        invariant
            words_present(entries@),
            in_range(entries@, left@),
            in_range(entries@, right@),
            ascending(entries@, left@),
            ascending(entries@, right@),
            i <= left@.len(),
            j <= right@.len(),
            in_range(entries@, out@),
            ascending(entries@, out@),
            forall|k: int| 0 <= k < i ==> out@.contains(#[trigger] left@[k]),
            forall|k: int| 0 <= k < j ==> out@.contains(#[trigger] right@[k]),
            forall|m: int|
                0 <= m < out@.len() ==> left@.contains(#[trigger] out@[m]) || right@.contains(
                    out@[m],
                ),
            forall|m: int, k: int|
                0 <= m < out@.len() && i <= k < left@.len() ==> !entry_before(
                    #[trigger] item(entries@, left@, k),
                    #[trigger] item(entries@, out@, m),
                ),
            forall|m: int, k: int|
                0 <= m < out@.len() && j <= k < right@.len() ==> !entry_before(
                    #[trigger] item(entries@, right@, k),
                    #[trigger] item(entries@, out@, m),
                ),
        decreases left@.len() - i + right@.len() - j,
    {
        let ghost before = out@;
        let take_left: bool = if j >= right.len() {
            true
        } else if i >= left.len() {
            false
        } else {
            !precedes(&entries[right[j]], &entries[left[i]])
        };
        if take_left {
            let x: usize = left[i];
            out.push(x);
            proof {
                let n = before.len() as int;
                assert(out@[n] == x);
                assert(item(entries@, out@, n) == item(entries@, left@, i as int));
                assert forall|m: int| 0 <= m < out@.len() implies left@.contains(
                    #[trigger] out@[m],
                ) || right@.contains(out@[m]) by {
                    if m < n {
                        assert(out@[m] == before[m]);
                    }
                }
                assert forall|k: int| 0 <= k < i + 1 implies out@.contains(
                    #[trigger] left@[k],
                ) by {
                    if k < i {
                        let m = choose|m: int| 0 <= m < before.len() && before[m] == left@[k];
                        assert(out@[m] == left@[k]);
                    }
                }
                assert forall|k: int| 0 <= k < j implies out@.contains(#[trigger] right@[k]) by {
                    let m = choose|m: int| 0 <= m < before.len() && before[m] == right@[k];
                    assert(out@[m] == right@[k]);
                }
                assert forall|a: int, b: int| 0 <= a < b < out@.len() implies !entry_before(
                    #[trigger] item(entries@, out@, b),
                    #[trigger] item(entries@, out@, a),
                ) by {
                    if b < n {
                        assert(item(entries@, out@, a) == item(entries@, before, a));
                        assert(item(entries@, out@, b) == item(entries@, before, b));
                    } else {
                        assert(item(entries@, out@, a) == item(entries@, before, a));
                    }
                }
                assert forall|m: int, k: int|
                    0 <= m < out@.len() && i + 1 <= k < left@.len() implies !entry_before(
                    #[trigger] item(entries@, left@, k),
                    #[trigger] item(entries@, out@, m),
                ) by {
                    if m < n {
                        assert(item(entries@, out@, m) == item(entries@, before, m));
                    }
                }
                assert forall|m: int, k: int|
                    0 <= m < out@.len() && j <= k < right@.len() implies !entry_before(
                    #[trigger] item(entries@, right@, k),
                    #[trigger] item(entries@, out@, m),
                ) by {
                    if m < n {
                        assert(item(entries@, out@, m) == item(entries@, before, m));
                    } else {
                        assert(!entry_before(
                            item(entries@, right@, j as int),
                            item(entries@, left@, i as int),
                        ));
                        if k > j {
                            lemma_not_before_transitive(
                                item(entries@, left@, i as int),
                                item(entries@, right@, j as int),
                                item(entries@, right@, k),
                            );
                        }
                    }
                }
            }
            i = i + 1;
        } else {
            let x: usize = right[j];
            out.push(x);
            proof {
                let n = before.len() as int;
                assert(out@[n] == x);
                assert(item(entries@, out@, n) == item(entries@, right@, j as int));
                assert forall|m: int| 0 <= m < out@.len() implies left@.contains(
                    #[trigger] out@[m],
                ) || right@.contains(out@[m]) by {
                    if m < n {
                        assert(out@[m] == before[m]);
                    }
                }
                assert forall|k: int| 0 <= k < j + 1 implies out@.contains(
                    #[trigger] right@[k],
                ) by {
                    if k < j {
                        let m = choose|m: int| 0 <= m < before.len() && before[m] == right@[k];
                        assert(out@[m] == right@[k]);
                    }
                }
                assert forall|k: int| 0 <= k < i implies out@.contains(#[trigger] left@[k]) by {
                    let m = choose|m: int| 0 <= m < before.len() && before[m] == left@[k];
                    assert(out@[m] == left@[k]);
                }
                assert forall|a: int, b: int| 0 <= a < b < out@.len() implies !entry_before(
                    #[trigger] item(entries@, out@, b),
                    #[trigger] item(entries@, out@, a),
                ) by {
                    if b < n {
                        assert(item(entries@, out@, a) == item(entries@, before, a));
                        assert(item(entries@, out@, b) == item(entries@, before, b));
                    } else {
                        assert(item(entries@, out@, a) == item(entries@, before, a));
                    }
                }
                assert forall|m: int, k: int|
                    0 <= m < out@.len() && j + 1 <= k < right@.len() implies !entry_before(
                    #[trigger] item(entries@, right@, k),
                    #[trigger] item(entries@, out@, m),
                ) by {
                    if m < n {
                        assert(item(entries@, out@, m) == item(entries@, before, m));
                    }
                }
                assert forall|m: int, k: int|
                    0 <= m < out@.len() && i <= k < left@.len() implies !entry_before(
                    #[trigger] item(entries@, left@, k),
                    #[trigger] item(entries@, out@, m),
                ) by {
                    if m < n {
                        assert(item(entries@, out@, m) == item(entries@, before, m));
                    } else {
                        let r = item(entries@, right@, j as int);
                        let l = item(entries@, left@, i as int);
                        assert(entry_before(r, l));
                        lemma_entry_asymmetric(r, l);
                        if k > i {
                            lemma_not_before_transitive(r, l, item(entries@, left@, k));
                        }
                    }
                }
            }
            j = j + 1;
        }
    }
    proof {
        assert forall|x: usize| out@.contains(x) <==> (left@.contains(x) || right@.contains(
            x,
        )) by {
            if left@.contains(x) {
                let k = choose|k: int| 0 <= k < left@.len() && left@[k] == x;
                assert(out@.contains(left@[k]));
            }
            if right@.contains(x) {
                let k = choose|k: int| 0 <= k < right@.len() && right@[k] == x;
                assert(out@.contains(right@[k]));
            }
            if out@.contains(x) {
                let m = choose|m: int| 0 <= m < out@.len() && out@[m] == x;
                assert(left@.contains(out@[m]) || right@.contains(out@[m]));
            }
        }
    }
    out
}

/// An ascending ordering of the entries at the positions from `lo` up to, not
/// including, `hi`.
pub(crate) fn sort_range(entries: &Vec<Entry>, lo: usize, hi: usize) -> (order: Vec<usize>)
    requires
        words_present(entries@),
        lo <= hi <= entries@.len(),
    ensures
        in_range(entries@, order@),
        ascending(entries@, order@),
        forall|x: usize| order@.contains(x) <==> lo <= x < hi,
    decreases hi - lo,
{
    if hi - lo == 0 {
        let order: Vec<usize> = Vec::new();
        assert forall|x: usize| order@.contains(x) <==> lo <= x < hi by {
            if order@.contains(x) {
                let m = choose|m: int| 0 <= m < order@.len() && order@[m] == x;
            }
        }
        order
    } else if hi - lo == 1 {
        let mut order: Vec<usize> = Vec::new();
        order.push(lo);
        assert forall|x: usize| order@.contains(x) <==> lo <= x < hi by {
            if order@.contains(x) {
                let m = choose|m: int| 0 <= m < order@.len() && order@[m] == x;
            }
            if lo <= x < hi {
                assert(order@[0] == x);
            }
        }
        order
    } else {
        let mid: usize = lo + (hi - lo) / 2;
        let left = sort_range(entries, lo, mid);
        let right = sort_range(entries, mid, hi);
        merge_runs(entries, &left, &right)
    }
}

/// Whether two lists hold the same entries.
pub open spec fn same_entries(a: Seq<EntryView>, b: Seq<EntryView>) -> bool {
    forall|e: EntryView| a.contains(e) <==> b.contains(e)
}

/// Whether `sorted` holds the entries of `entries`, each once, in their
/// order.
pub open spec fn is_sorting(sorted: Seq<EntryView>, entries: Seq<EntryView>) -> bool {
    strictly_sorted(sorted) && same_entries(sorted, entries)
}

/// The entries of a list, each once, in their order.
pub open spec fn sorted_entries(entries: Seq<EntryView>) -> Seq<EntryView> {
    choose|sorted: Seq<EntryView>| is_sorting(sorted, entries)
}

/// A list of entries can be put in order in one way only.
pub proof fn lemma_sorting_unique(a: Seq<EntryView>, b: Seq<EntryView>, entries: Seq<EntryView>)
    requires
        is_sorting(a, entries),
        is_sorting(b, entries),
    ensures
        a == b,
    decreases a.len(),
{
    if a.len() == 0 {
        if b.len() > 0 {
            assert(b.contains(b[0]));
            assert(a.contains(b[0]));
        }
        assert(a =~= b);
    } else {
        assert(a.contains(a[0]));
        assert(b.contains(a[0]));
        let j = choose|j: int| 0 <= j < b.len() && b[j] == a[0];
        assert(b.contains(b[0]));
        assert(a.contains(b[0]));
        let i = choose|i: int| 0 <= i < a.len() && a[i] == b[0];
        lemma_entry_asymmetric(a[0], b[0]);
        assert(a[0] == b[0]);
        let ta = a.drop_first();
        let tb = b.drop_first();
        assert forall|e: EntryView| ta.contains(e) <==> tb.contains(e) by {
            if ta.contains(e) {
                let n = choose|n: int| 0 <= n < ta.len() && ta[n] == e;
                assert(a[n + 1] == e);
                assert(a.contains(e));
                lemma_entry_asymmetric(a[0], e);
                let m = choose|m: int| 0 <= m < b.len() && b[m] == e;
                assert(tb[m - 1] == e);
            }
            if tb.contains(e) {
                let n = choose|n: int| 0 <= n < tb.len() && tb[n] == e;
                assert(b[n + 1] == e);
                assert(b.contains(e));
                lemma_entry_asymmetric(b[0], e);
                let m = choose|m: int| 0 <= m < a.len() && a[m] == e;
                assert(ta[m - 1] == e);
            }
        }
        assert(strictly_sorted(ta)) by {
            assert forall|x: int, y: int| 0 <= x < y < ta.len() implies entry_before(
                ta[x],
                ta[y],
            ) by {
                assert(entry_before(a[x + 1], a[y + 1]));
            }
        }
        assert(strictly_sorted(tb)) by {
            assert forall|x: int, y: int| 0 <= x < y < tb.len() implies entry_before(
                tb[x],
                tb[y],
            ) by {
                assert(entry_before(b[x + 1], b[y + 1]));
            }
        }
        lemma_sorting_unique(ta, tb, ta);
        assert(a =~= seq![a[0]] + ta);
        assert(b =~= seq![b[0]] + tb);
    }
}

/// Every entry of a list has a word that is not empty.
pub open spec fn words_given(entries: Seq<EntryView>) -> bool {
    forall|i: int| 0 <= i < entries.len() ==> (#[trigger] entries[i]).word.len() > 0
}

/// A sorted list with one more entry put in its place, unless the list has
/// it.
spec fn place(sorted: Seq<EntryView>, e: EntryView) -> Seq<EntryView>
    decreases sorted.len(),
{
    if sorted.len() == 0 {
        seq![e]
    } else if sorted.last() == e {
        sorted
    } else if entry_before(sorted.last(), e) {
        sorted.push(e)
    } else {
        place(sorted.drop_last(), e).push(sorted.last())
    }
}

/// The entries of a list placed one by one.
spec fn arrange(entries: Seq<EntryView>) -> Seq<EntryView>
    decreases entries.len(),
{
    if entries.len() == 0 {
        Seq::empty()
    } else {
        place(arrange(entries.drop_last()), entries.last())
    }
}

/// Placing an entry keeps a list sorted and adds just that entry.
proof fn lemma_place(sorted: Seq<EntryView>, e: EntryView)
    requires
        strictly_sorted(sorted),
        words_given(sorted),
        e.word.len() > 0,
    ensures
        strictly_sorted(place(sorted, e)),
        words_given(place(sorted, e)),
        forall|x: EntryView|
            #![trigger place(sorted, e).contains(x)]
            #![trigger sorted.contains(x)]
            place(sorted, e).contains(x) <==> (sorted.contains(x) || x == e),
        place(sorted, e).contains(e),
    decreases sorted.len(),
{
    let out = place(sorted, e);
    if sorted.len() == 0 {
        assert(out[0] == e);
        assert forall|x: EntryView| out.contains(x) <==> (sorted.contains(x) || x == e) by {
            if out.contains(x) {
                let i = choose|i: int| 0 <= i < out.len() && out[i] == x;
            }
        }
    } else if sorted.last() == e {
        assert(sorted[sorted.len() - 1] == e);
    } else if entry_before(sorted.last(), e) {
        let n = sorted.len() as int;
        assert(out[n] == e);
        assert forall|i: int, j: int| 0 <= i < j < out.len() implies entry_before(
            out[i],
            out[j],
        ) by {
            if j == n && i < n - 1 {
                assert(entry_before(sorted[i], sorted[n - 1]));
                lemma_entry_transitive(sorted[i], sorted[n - 1], e);
            }
        }
        assert forall|x: EntryView| out.contains(x) <==> (sorted.contains(x) || x == e) by {
            if out.contains(x) {
                let i = choose|i: int| 0 <= i < out.len() && out[i] == x;
                if i < n {
                    assert(sorted[i] == x);
                }
            }
            if sorted.contains(x) {
                let i = choose|i: int| 0 <= i < sorted.len() && sorted[i] == x;
                assert(out[i] == x);
            }
        }
    } else {
        let rest = sorted.drop_last();
        let last = sorted.last();
        let n = sorted.len() as int;
        assert(strictly_sorted(rest)) by {
            assert forall|i: int, j: int| 0 <= i < j < rest.len() implies entry_before(
                rest[i],
                rest[j],
            ) by {
                assert(entry_before(sorted[i], sorted[j]));
            }
        }
        assert(words_given(rest)) by {
            assert forall|i: int| 0 <= i < rest.len() implies (#[trigger] rest[i]).word.len()
                > 0 by {
                assert(rest[i] == sorted[i]);
            }
        }
        lemma_place(rest, e);
        let inner = place(rest, e);
        lemma_entry_total(last, e);
        assert(sorted[n - 1] == last);
        assert(out[inner.len() as int] == last);
        assert forall|i: int, j: int| 0 <= i < j < out.len() implies entry_before(
            out[i],
            out[j],
        ) by {
            if j == inner.len() {
                assert(inner.contains(inner[i]));
                if inner[i] != e {
                    let k = choose|k: int| 0 <= k < rest.len() && rest[k] == inner[i];
                    assert(entry_before(sorted[k], sorted[n - 1]));
                }
            } else {
                assert(entry_before(inner[i], inner[j]));
            }
        }
        assert forall|i: int| 0 <= i < out.len() implies (#[trigger] out[i]).word.len() > 0 by {
            if i < inner.len() {
                assert(out[i] == inner[i]);
            }
        }
        assert forall|x: EntryView| out.contains(x) <==> (sorted.contains(x) || x == e) by {
            if out.contains(x) {
                let i = choose|i: int| 0 <= i < out.len() && out[i] == x;
                if i < inner.len() {
                    assert(inner.contains(inner[i]));
                    if x != e {
                        let k = choose|k: int| 0 <= k < rest.len() && rest[k] == x;
                        assert(sorted[k] == x);
                    }
                }
            }
            if sorted.contains(x) {
                let k = choose|k: int| 0 <= k < sorted.len() && sorted[k] == x;
                if k < n - 1 {
                    assert(rest[k] == x);
                    assert(rest.contains(x));
                    let i = choose|i: int| 0 <= i < inner.len() && inner[i] == x;
                    assert(out[i] == x);
                }
            }
            if x == e {
                assert(inner.contains(e));
                let i = choose|i: int| 0 <= i < inner.len() && inner[i] == e;
                assert(out[i] == x);
            }
        }
    }
}

/// The entries of a list, placed one by one, are the list put in order.
proof fn lemma_arrange(entries: Seq<EntryView>)
    requires
        words_given(entries),
    ensures
        is_sorting(arrange(entries), entries),
        words_given(arrange(entries)),
    decreases entries.len(),
{
    if entries.len() == 0 {
        assert forall|e: EntryView| arrange(entries).contains(e) <==> entries.contains(e) by {
            if arrange(entries).contains(e) {
                let i = choose|i: int| 0 <= i < arrange(entries).len() && arrange(entries)[i] == e;
            }
            if entries.contains(e) {
                let i = choose|i: int| 0 <= i < entries.len() && entries[i] == e;
            }
        }
    } else {
        let rest = entries.drop_last();
        let n = entries.len() as int;
        assert forall|i: int| 0 <= i < rest.len() implies (#[trigger] rest[i]).word.len() > 0 by {
            assert(rest[i] == entries[i]);
        }
        lemma_arrange(rest);
        assert(entries[n - 1] == entries.last());
        lemma_place(arrange(rest), entries.last());
        assert forall|e: EntryView| arrange(entries).contains(e) <==> entries.contains(e) by {
            if entries.contains(e) {
                let i = choose|i: int| 0 <= i < entries.len() && entries[i] == e;
                if i < n - 1 {
                    assert(rest[i] == e);
                    assert(rest.contains(e));
                }
            }
            if rest.contains(e) {
                let i = choose|i: int| 0 <= i < rest.len() && rest[i] == e;
                assert(entries[i] == e);
            }
        }
    }
}

/// Every list of entries can be put in order.
pub proof fn lemma_sorting_exists(entries: Seq<EntryView>)
    requires
        words_given(entries),
    ensures
        is_sorting(sorted_entries(entries), entries),
{
    lemma_arrange(entries);
}

/// The order of entries does not depend on how a list arranges them, nor on
/// how often it repeats them: lists that hold the same entries are put in
/// the same order.
pub proof fn lemma_order_ignores_arrangement(a: Seq<EntryView>, b: Seq<EntryView>)
    requires
        words_given(a),
        same_entries(a, b),
    ensures
        sorted_entries(a) == sorted_entries(b),
{
    assert forall|i: int| 0 <= i < b.len() implies (#[trigger] b[i]).word.len() > 0 by {
        assert(b.contains(b[i]));
        let k = choose|k: int| 0 <= k < a.len() && a[k] == b[i];
    }
    lemma_sorting_exists(a);
    lemma_sorting_exists(b);
    lemma_sorting_unique(sorted_entries(a), sorted_entries(b), a);
}

} // verus!
