//! Stable ordering of items by an integer key.

use vstd::prelude::*;

use crate::ieee;

verus! {

/// Item `a` stands before item `b`: by key, and by place among equal keys.
pub open spec fn before(keys: Seq<i128>, a: int, b: int) -> bool {
    keys[a] < keys[b] || (keys[a] == keys[b] && a < b)
}

/// A list of places is in order.
pub open spec fn in_order(keys: Seq<i128>, list: Seq<usize>) -> bool {
    forall|i: int, j: int|
        0 <= i < j < list.len() ==> before(
            keys,
            #[trigger] list[i] as int,
            #[trigger] list[j] as int,
        )
}

/// A list holds exactly the places from `low` to `high`.
pub open spec fn holds_range(list: Seq<usize>, low: int, high: int) -> bool {
    &&& forall|i: int| 0 <= i < list.len() ==> low <= #[trigger] list[i] < high
    &&& forall|k: usize| low <= k < high ==> #[trigger] list.contains(k)
}

/// The stable order of all items: every place once, smaller keys first, equal
/// keys in their given order.
pub open spec fn is_order(keys: Seq<i128>, list: Seq<usize>) -> bool {
    &&& list.len() == keys.len()
    &&& holds_range(list, 0, keys.len() as int)
    &&& in_order(keys, list)
}

fn merge(
    keys: &Vec<i128>,
    left: &Vec<usize>,
    right: &Vec<usize>,
    low: usize,
    middle: usize,
    high: usize,
) -> (merged: Vec<usize>)
    requires
        low <= middle <= high <= keys@.len(),
        left@.len() == middle - low,
        right@.len() == high - middle,
        holds_range(left@, low as int, middle as int),
        holds_range(right@, middle as int, high as int),
        in_order(keys@, left@),
        in_order(keys@, right@),
    ensures
        merged@.len() == high - low,
        holds_range(merged@, low as int, high as int),
        in_order(keys@, merged@),
{
    let mut merged: Vec<usize> = Vec::new();
    let mut i: usize = 0;
    let mut j: usize = 0;
    while i < left.len() || j < right.len()
        invariant
            low <= middle <= high <= keys@.len(),
            left@.len() == middle - low,
            right@.len() == high - middle,
            holds_range(left@, low as int, middle as int),
            holds_range(right@, middle as int, high as int),
            in_order(keys@, left@),
            in_order(keys@, right@),
            i <= left@.len(),
            j <= right@.len(),
            merged@.len() == i + j,
            in_order(keys@, merged@),
            forall|k: int| 0 <= k < merged@.len() ==> low <= #[trigger] merged@[k] < high,
            forall|k: int, l: int|
                0 <= k < merged@.len() && i <= l < left@.len() ==> before(
                    keys@,
                    #[trigger] merged@[k] as int,
                    #[trigger] left@[l] as int,
                ),
            forall|k: int, l: int|
                0 <= k < merged@.len() && j <= l < right@.len() ==> before(
                    keys@,
                    #[trigger] merged@[k] as int,
                    #[trigger] right@[l] as int,
                ),
            forall|l: int| 0 <= l < i ==> merged@.contains(#[trigger] left@[l]),
            forall|l: int| 0 <= l < j ==> merged@.contains(#[trigger] right@[l]),
        decreases left@.len() - i + right@.len() - j,
    {
        let from_left: bool = if i == left.len() {
            false
        } else if j == right.len() {
            true
        } else {
            keys[left[i]] <= keys[right[j]]
        };
        let ghost old_merged = merged@;
        if from_left {
            let item: usize = left[i];
            merged.push(item);
            i = i + 1;
        } else {
            let item: usize = right[j];
            merged.push(item);
            j = j + 1;
        }
        proof {
            let last = merged@.len() - 1;
            assert(merged@[last] == merged@.last());
            assert forall|x: usize| old_merged.contains(x) implies merged@.contains(x) by {
                let k = choose|k: int| 0 <= k < old_merged.len() && old_merged[k] == x;
                assert(merged@[k] == x);
            }
            assert(merged@.contains(merged@[last]));
        }
    }
    proof {
        assert forall|k: usize| low <= k < high implies #[trigger] merged@.contains(k) by {
            if k < middle {
                assert(left@.contains(k));
            } else {
                assert(right@.contains(k));
            }
        }
    }
    merged
}

fn sort_range(keys: &Vec<i128>, low: usize, high: usize) -> (list: Vec<usize>)
    requires
        low <= high <= keys@.len(),
    ensures
        list@.len() == high - low,
        holds_range(list@, low as int, high as int),
        in_order(keys@, list@),
    decreases high - low,
{
    if high - low == 0 {
        return Vec::new();
    }
    if high - low == 1 {
        let mut list: Vec<usize> = Vec::new();
        list.push(low);
        assert(list@[0] == low);
        return list;
    }
    let middle: usize = low + (high - low) / 2;
    let left: Vec<usize> = sort_range(keys, low, middle);
    let right: Vec<usize> = sort_range(keys, middle, high);
    merge(keys, &left, &right, low, middle, high)
}

/// Orders items by key. Equal keys keep their given order.
pub fn stable_order(keys: &Vec<i128>) -> (list: Vec<usize>)
    ensures
        is_order(keys@, list@),
{
    sort_range(keys, 0, keys.len())
}

/// There is only one stable order.
pub proof fn law_order_is_unique(keys: Seq<i128>, a: Seq<usize>, b: Seq<usize>)
    requires
        is_order(keys, a),
        is_order(keys, b),
        keys.len() <= usize::MAX,
    ensures
        a == b,
{
    assert forall|n: int| 0 <= n < a.len() implies a[n] == b[n] by {
        lemma_same_item(keys, a, b, n);
    }
    assert(a =~= b);
}

proof fn lemma_same_item(keys: Seq<i128>, a: Seq<usize>, b: Seq<usize>, n: int)
    requires
        is_order(keys, a),
        is_order(keys, b),
        0 <= n < a.len(),
    ensures
        a[n] == b[n],
    decreases n,
{
    assert forall|i: int| 0 <= i < n implies a[i] == b[i] by {
        lemma_same_item(keys, a, b, i);
    }
    assert(b.contains(a[n]));
    assert(a.contains(b[n]));
    let p = choose|p: int| 0 <= p < b.len() && b[p] == a[n];
    let q = choose|q: int| 0 <= q < a.len() && a[q] == b[n];
    if p < n {
        assert(a[p] == b[p]);
        assert(before(keys, a[p] as int, a[n] as int));
    }
    if q < n {
        assert(a[q] == b[q]);
        assert(before(keys, b[q] as int, b[n] as int));
    }
    if p > n && q > n {
        assert(before(keys, b[n] as int, b[p] as int));
        assert(before(keys, a[n] as int, a[q] as int));
    }
}

/// The items at the listed places.
pub open spec fn picked<T>(items: Seq<T>, places: Seq<usize>) -> Seq<T> {
    Seq::new(places.len(), |i: int| items[places[i] as int])
}

/// An order hands out the very items it is given, each as often as it occurs.
pub proof fn law_order_keeps_items<T>(keys: Seq<i128>, places: Seq<usize>, items: Seq<T>)
    requires
        is_order(keys, places),
        items.len() == keys.len(),
        keys.len() <= usize::MAX,
    ensures
        picked(items, places).to_multiset() == items.to_multiset(),
{
    assert(places.no_duplicates()) by {
        assert forall|i: int, j: int| 0 <= i < j < places.len() implies places[i] != places[j] by {
            assert(before(keys, places[i] as int, places[j] as int));
        }
    }
    lemma_picked(items, places);
}

proof fn lemma_picked<T>(items: Seq<T>, places: Seq<usize>)
    requires
        places.len() == items.len(),
        items.len() <= usize::MAX,
        holds_range(places, 0, items.len() as int),
        places.no_duplicates(),
    ensures
        picked(items, places).to_multiset() == items.to_multiset(),
    decreases items.len(),
{
    let all = picked(items, places);
    if items.len() == 0 {
        assert(all =~= items);
    } else {
        let last = (items.len() - 1) as usize;
        assert(places.contains(last));
        let k = places.index_of(last);
        let rest = places.remove(k);
        let shorter = items.drop_last();
        assert forall|i: int| 0 <= i < rest.len() implies 0 <= #[trigger] rest[i] < shorter.len() by {
            let j = if i < k {
                i
            } else {
                i + 1
            };
            assert(rest[i] == places[j]);
            assert(places[j] != places[k]);
        }
        assert forall|p: usize| 0 <= p < shorter.len() implies #[trigger] rest.contains(p) by {
            assert(places.contains(p));
            let j = places.index_of(p);
            if j < k {
                assert(rest[j] == p);
            } else {
                assert(rest[j - 1] == p);
            }
        }
        lemma_picked(shorter, rest);
        assert(all.remove(k) =~= picked(shorter, rest));
        vstd::seq_lib::to_multiset_remove(all, k);
        vstd::seq_lib::to_multiset_contains(all, all[k]);
        assert(all.to_multiset() =~= shorter.to_multiset().insert(items.last()));
        vstd::seq_lib::to_multiset_build(shorter, items.last());
        assert(shorter.push(items.last()) =~= items);
    }
}

/// The sum of a list of counts.
pub open spec fn total(counts: Seq<nat>) -> nat
    decreases counts.len(),
{
    if counts.len() == 0 {
        0
    } else {
        total(counts.drop_last()) + counts.last()
    }
}

/// One more count adds to the sum.
pub proof fn lemma_total_push(counts: Seq<nat>, next: nat)
    ensures
        total(counts.push(next)) == total(counts) + next,
{
    assert(counts.push(next).drop_last() =~= counts);
}

/// The sum of two lists is that of both.
pub proof fn lemma_total_add(counts: Seq<nat>, more: Seq<nat>)
    ensures
        total(counts + more) == total(counts) + total(more),
    decreases more.len(),
{
    if more.len() == 0 {
        assert(counts + more =~= counts);
    } else {
        lemma_total_add(counts, more.drop_last());
        assert((counts + more).drop_last() =~= counts + more.drop_last());
        assert((counts + more).last() == more.last());
    }
}

proof fn lemma_total_remove(counts: Seq<nat>, place: int)
    requires
        0 <= place < counts.len(),
    ensures
        total(counts) == total(counts.remove(place)) + counts[place],
    decreases counts.len(),
{
    let last = counts.len() - 1;
    if place == last {
        assert(counts.remove(place) =~= counts.drop_last());
    } else {
        lemma_total_remove(counts.drop_last(), place);
        assert(counts.remove(place).drop_last() =~= counts.drop_last().remove(place));
        assert(counts.remove(place).last() == counts.last());
    }
}

proof fn lemma_total_permuted(a: Seq<nat>, b: Seq<nat>)
    requires
        a.to_multiset() == b.to_multiset(),
    ensures
        total(a) == total(b),
    decreases a.len(),
{
    vstd::seq_lib::to_multiset_len(a);
    vstd::seq_lib::to_multiset_len(b);
    if a.len() > 0 {
        vstd::seq_lib::to_multiset_contains(a, a.last());
        vstd::seq_lib::to_multiset_contains(b, a.last());
        assert(a.contains(a.last())) by {
            assert(a[a.len() - 1] == a.last());
        }
        let k = b.index_of(a.last());
        vstd::seq_lib::to_multiset_remove(b, k);
        vstd::seq_lib::to_multiset_remove(a, a.len() - 1);
        assert(a.remove(a.len() - 1) =~= a.drop_last());
        lemma_total_permuted(a.drop_last(), b.remove(k));
        lemma_total_remove(b, k);
    }
}

/// An order keeps the sum of counts.
pub proof fn lemma_picked_total(keys: Seq<i128>, places: Seq<usize>, counts: Seq<nat>)
    requires
        is_order(keys, places),
        counts.len() == keys.len(),
        keys.len() <= usize::MAX,
    ensures
        total(picked(counts, places)) == total(counts),
{
    law_order_keeps_items(keys, places, counts);
    lemma_total_permuted(picked(counts, places), counts);
}

/// The total-order keys of binary32 patterns.
pub open spec fn total_keys(values: Seq<u32>) -> Seq<i128> {
    Seq::new(values.len(), |i: int| ieee::f32_total_rank(values[i]) as i128)
}

/// The patterns in ascending total order.
pub open spec fn is_sorted(values: Seq<u32>, sorted: Seq<u32>) -> bool {
    exists|order: Seq<usize>| #[trigger]
        is_order(total_keys(values), order) && sorted == Seq::new(
            order.len(),
            |i: int| values[order[i] as int],
        )
}

fn total_key(bits: u32) -> (key: i128)
    ensures
        key == ieee::f32_total_rank(bits),
{
    if bits >= 0x8000_0000 {
        0x7fff_ffffi128 - bits as i128
    } else {
        bits as i128
    }
}

/// Sorts binary32 patterns by their total order.
pub fn sort_total(values: &Vec<u32>) -> (sorted: Vec<u32>)
    ensures
        is_sorted(values@, sorted@),
        sorted@.len() == values@.len(),
{
    let mut keys: Vec<i128> = Vec::new();
    for i in 0..values.len()
        invariant
            keys@ == total_keys(values@).take(i as int),
    {
        keys.push(total_key(values[i]));
        assert(keys@ =~= total_keys(values@).take(i + 1));
    }
    assert(keys@ =~= total_keys(values@));
    let order: Vec<usize> = stable_order(&keys);
    let mut sorted: Vec<u32> = Vec::new();
    for i in 0..order.len()
        invariant
            keys@.len() == values@.len(),
            is_order(keys@, order@),
            sorted@ == Seq::new(i as nat, |k: int| values@[order@[k] as int]),
    {
        sorted.push(values[order[i]]);
        assert(sorted@ =~= Seq::new((i + 1) as nat, |k: int| values@[order@[k] as int]));
    }
    sorted
}

/// The finite patterns among the first `count`, in their given order.
pub open spec fn finite_part(values: Seq<u32>, count: int) -> Seq<u32>
    decreases count,
{
    if count <= 0 {
        Seq::empty()
    } else if ieee::f32_finite(values[count - 1]) {
        finite_part(values, count - 1).push(values[count - 1])
    } else {
        finite_part(values, count - 1)
    }
}

/// Keeps the finite patterns.
pub fn keep_finite(values: &Vec<u32>) -> (kept: Vec<u32>)
    ensures
        kept@ == finite_part(values@, values@.len() as int),
{
    let mut kept: Vec<u32> = Vec::new();
    for i in 0..values.len()
        invariant
            kept@ == finite_part(values@, i as int),
    {
        if ieee::f32_is_finite(values[i]) {
            kept.push(values[i]);
        }
    }
    kept
}

/// The numbers below a count, in order.
pub open spec fn counted(count: int) -> Seq<int> {
    Seq::new(count as nat, |i: int| i)
}

/// One number more.
pub proof fn lemma_counted(count: int)
    requires
        count > 0,
    ensures
        counted(count).drop_last() == counted(count - 1),
        counted(count).last() == count - 1,
        counted(count).len() == count,
{
    assert(counted(count).drop_last() =~= counted(count - 1));
}

/// A sorted list holds the very values it is given, each as often as it occurs, and
/// ascends in total order.
pub proof fn law_sorted_list_ascends(values: Seq<u32>, sorted: Seq<u32>)
    requires
        is_sorted(values, sorted),
        values.len() <= usize::MAX,
    ensures
        sorted.to_multiset() == values.to_multiset(),
        sorted.len() == values.len(),
        forall|i: int, j: int|
            0 <= i < j < sorted.len() ==> ieee::f32_total_rank(#[trigger] sorted[i])
                <= ieee::f32_total_rank(#[trigger] sorted[j]),
{
    let keys = total_keys(values);
    let places = choose|places: Seq<usize>| #[trigger]
        is_order(keys, places) && sorted == Seq::new(
            places.len(),
            |i: int| values[places[i] as int],
        );
    law_order_keeps_items(keys, places, values);
    assert(sorted =~= picked(values, places));
    assert forall|i: int, j: int| 0 <= i < j < sorted.len() implies ieee::f32_total_rank(
        #[trigger] sorted[i],
    ) <= ieee::f32_total_rank(#[trigger] sorted[j]) by {
        assert(before(keys, places[i] as int, places[j] as int));
    }
}

/// The finite values are kept, in their given order.
pub proof fn law_finite_values_are_kept(values: Seq<u32>, count: int)
    requires
        0 <= count <= values.len(),
    ensures
        finite_part(values, count) == values.take(count).filter(
            |value: u32| ieee::f32_magnitude(value) < 0x7f80_0000,
        ),
    decreases count,
{
    reveal(Seq::filter);
    if count > 0 {
        law_finite_values_are_kept(values, count - 1);
        assert(values.take(count).drop_last() =~= values.take(count - 1));
    }
}

} // verus!
