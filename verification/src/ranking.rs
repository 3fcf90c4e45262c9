//! The order in which entries are shown side by side: larger sizes first, and
//! entries of equal size in the order in which they came.

use vstd::prelude::*;
use vstd::seq_lib::seq_to_set_is_finite;
use vstd::set_lib::{lemma_int_range, lemma_subset_equality, set_int_range};

verus! {

/// Whether the entry at position `a` is shown before the one at position `b`: its
/// size is larger, or the sizes are equal and `a` came first.
pub open spec fn precedes(sizes: Seq<nat>, a: int, b: int) -> bool {
    sizes[a] > sizes[b] || (sizes[a] == sizes[b] && a < b)
}

/// Whether `order` lists the positions from `from` up to `to`, each once, in the
/// order in which their entries are shown.
pub open spec fn is_order_of_range(order: Seq<int>, sizes: Seq<nat>, from: int, to: int) -> bool {
    &&& order.len() == to - from
    &&& forall|p: int| 0 <= p < order.len() ==> from <= #[trigger] order[p] < to
    &&& forall|p: int, q: int|
        0 <= p < q < order.len() ==> precedes(sizes, #[trigger] order[p], #[trigger] order[q])
}

/// Whether `order` lists every position of `sizes` once, in the order in which
/// the entries are shown.
pub open spec fn is_descending_order(order: Seq<int>, sizes: Seq<nat>) -> bool {
    is_order_of_range(order, sizes, 0, sizes.len() as int)
}

/// The positions of `sizes` in the order in which the entries are shown.
pub open spec fn descending_order(sizes: Seq<nat>) -> Seq<int> {
    choose|order: Seq<int>| is_descending_order(order, sizes)
}

/// `items` taken in the given order of their positions.
pub open spec fn arranged<T>(items: Seq<T>, order: Seq<int>) -> Seq<T> {
    Seq::new(order.len(), |p: int| items[order[p]])
}

/// A sequence of positions as numbers.
pub open spec fn positions(order: Seq<usize>) -> Seq<int> {
    Seq::new(order.len(), |p: int| order[p] as int)
}

/// A sequence of sizes as numbers.
pub open spec fn naturals(sizes: Seq<u64>) -> Seq<nat> {
    Seq::new(sizes.len(), |p: int| sizes[p] as nat)
}

/// Whether `order` lists each of the positions below `n` once.
pub open spec fn is_permutation(order: Seq<int>, n: nat) -> bool {
    &&& order.len() == n
    &&& forall|p: int| 0 <= p < order.len() ==> 0 <= #[trigger] order[p] < n
    &&& forall|p: int, q: int|
        0 <= p < q < order.len() ==> #[trigger] order[p] != #[trigger] order[q]
}

/// The order in which entries are shown lists each position once.
pub proof fn lemma_order_is_permutation(order: Seq<int>, sizes: Seq<nat>)
    requires
        is_descending_order(order, sizes),
    ensures
        is_permutation(order, sizes.len()),
{
    assert forall|p: int, q: int| 0 <= p < q < order.len() implies #[trigger] order[p]
        != #[trigger] order[q] by {
        assert(precedes(sizes, order[p], order[q]));
    }
}

/// A list of each position below `n` holds every one of them.
pub proof fn lemma_permutation_holds_every_position(order: Seq<int>, n: nat, position: int)
    requires
        is_permutation(order, n),
        0 <= position < n,
    ensures
        order.contains(position),
{
    let n = n as int;
    assert(order.no_duplicates());
    order.unique_seq_to_set();
    seq_to_set_is_finite(order);
    lemma_int_range(0, n);
    assert forall|x: int| order.to_set().contains(x) implies set_int_range(0, n).contains(x) by {
        let p = choose|p: int| 0 <= p < order.len() && order[p] == x;
        assert(0 <= order[p] < n);
    }
    lemma_subset_equality(order.to_set(), set_int_range(0, n));
    assert(set_int_range(0, n).contains(position));
    assert(order.to_set().contains(position));
}

/// Two orders of the positions of `sizes` agree up to the place `p`.
proof fn lemma_orders_agree_up_to(a: Seq<int>, b: Seq<int>, sizes: Seq<nat>, p: int)
    requires
        is_descending_order(a, sizes),
        is_descending_order(b, sizes),
        0 <= p < sizes.len(),
    ensures
        forall|k: int| 0 <= k <= p ==> a[k] == b[k],
    decreases p,
{
    if p > 0 {
        lemma_orders_agree_up_to(a, b, sizes, p - 1);
    }
    let x = a[p];
    let y = b[p];
    if x != y {
        lemma_order_is_permutation(a, sizes);
        lemma_order_is_permutation(b, sizes);
        lemma_permutation_holds_every_position(b, sizes.len(), x);
        let q = choose|q: int| 0 <= q < b.len() && b[q] == x;
        lemma_permutation_holds_every_position(a, sizes.len(), y);
        let r = choose|r: int| 0 <= r < a.len() && a[r] == y;
        if q < p {
            assert(a[q] == b[q]);
            assert(precedes(sizes, a[q], a[p]));
        } else {
            assert(precedes(sizes, b[p], b[q]));
        }
        if r < p {
            assert(a[r] == b[r]);
            assert(precedes(sizes, b[r], b[p]));
        } else {
            assert(precedes(sizes, a[p], a[r]));
        }
        assert(false);
    }
}

/// The order in which entries are shown is settled by their sizes: no two orders
/// of the same sizes differ.
pub proof fn lemma_descending_order_unique(a: Seq<int>, b: Seq<int>, sizes: Seq<nat>)
    requires
        is_descending_order(a, sizes),
        is_descending_order(b, sizes),
    ensures
        a == b,
        a == descending_order(sizes),
{
    if sizes.len() > 0 {
        lemma_orders_agree_up_to(a, b, sizes, sizes.len() - 1);
        let c = descending_order(sizes);
        lemma_orders_agree_up_to(a, c, sizes, sizes.len() - 1);
        assert(a =~= c);
    } else {
        assert(a =~= descending_order(sizes));
    }
    assert(a =~= b);
}

/// The place in `order` up to which the sizes are not below `size`, among the
/// first `upto` places.
proof fn lemma_insertion_point(order: Seq<int>, sizes: Seq<nat>, size: nat, upto: int) -> (k: int)
    requires
        is_descending_order(order, sizes),
        0 <= upto <= order.len(),
    ensures
        0 <= k <= upto,
        forall|p: int| 0 <= p < k ==> sizes[#[trigger] order[p]] >= size,
        forall|p: int| k <= p < upto ==> sizes[#[trigger] order[p]] < size,
    decreases upto,
{
    if upto == 0 {
        0
    } else if sizes[order[upto - 1]] >= size {
        assert forall|p: int| 0 <= p < upto implies sizes[#[trigger] order[p]] >= size by {
            if p < upto - 1 {
                assert(precedes(sizes, order[p], order[upto - 1]));
            }
        }
        upto
    } else {
        lemma_insertion_point(order, sizes, size, upto - 1)
    }
}

/// Whatever the sizes, there is an order in which the entries are shown.
pub proof fn lemma_descending_order_exists(sizes: Seq<nat>)
    ensures
        is_descending_order(descending_order(sizes), sizes),
    decreases sizes.len(),
{
    if sizes.len() == 0 {
        assert(is_descending_order(Seq::<int>::empty(), sizes));
    } else {
        let earlier = sizes.drop_last();
        lemma_descending_order_exists(earlier);
        let order = descending_order(earlier);
        let last = sizes.len() - 1;
        let k = lemma_insertion_point(order, earlier, sizes[last], order.len() as int);
        let longer = order.insert(k, last);
        assert forall|p: int| 0 <= p < longer.len() implies 0 <= #[trigger] longer[p]
            < sizes.len() by {
            if p < k {
                assert(longer[p] == order[p]);
            } else if p > k {
                assert(longer[p] == order[p - 1]);
            }
        }
        assert forall|p: int, q: int| 0 <= p < q < longer.len() implies precedes(
            sizes,
            #[trigger] longer[p],
            #[trigger] longer[q],
        ) by {
            let a = if p < k {
                p
            } else {
                p - 1
            };
            let b = if q < k {
                q
            } else {
                q - 1
            };
            if p == k {
                assert(longer[q] == order[b]);
                assert(earlier[order[b]] == sizes[order[b]]);
            } else if q == k {
                assert(longer[p] == order[a]);
                assert(earlier[order[a]] == sizes[order[a]]);
            } else {
                assert(longer[p] == order[a]);
                assert(longer[q] == order[b]);
                assert(precedes(earlier, order[a], order[b]));
                assert(earlier[order[a]] == sizes[order[a]]);
                assert(earlier[order[b]] == sizes[order[b]]);
            }
        }
        assert(is_descending_order(longer, sizes));
    }
}

/// Entries taken in the order in which they are shown descend in size, and
/// entries of equal size stay in the order in which they came.
pub proof fn lemma_arranged_descends<T>(items: Seq<T>, sizes: Seq<nat>, order: Seq<int>)
    requires
        items.len() == sizes.len(),
        is_descending_order(order, sizes),
    ensures
        arranged(items, order).len() == items.len(),
        forall|p: int, q: int|
            0 <= p <= q < order.len() ==> sizes[#[trigger] order[p]] >= sizes[#[trigger] order[q]],
        forall|p: int, q: int|
            0 <= p < q < order.len() && sizes[#[trigger] order[p]] == sizes[#[trigger] order[q]]
                ==> order[p] < order[q],
{
    assert forall|p: int, q: int| 0 <= p <= q < order.len() implies sizes[#[trigger] order[p]]
        >= sizes[#[trigger] order[q]] by {
        if p < q {
            assert(precedes(sizes, order[p], order[q]));
        }
    }
    assert forall|p: int, q: int|
        0 <= p < q < order.len() && sizes[#[trigger] order[p]] == sizes[#[trigger] order[q]]
        implies order[p] < order[q] by {
        assert(precedes(sizes, order[p], order[q]));
    }
}

/// The sum of the numbers of `s`.
pub open spec fn total(s: Seq<nat>) -> nat
    decreases s.len(),
{
    if s.len() == 0 {
        0
    } else {
        total(s.drop_last()) + s.last()
    }
}

/// Taking one number out of a sequence takes it out of the sum.
pub proof fn lemma_total_remove(s: Seq<nat>, k: int)
    requires
        0 <= k < s.len(),
    ensures
        total(s) == total(s.remove(k)) + s[k],
    decreases s.len(),
{
    if k == s.len() - 1 {
        assert(s.remove(k) =~= s.drop_last());
    } else {
        lemma_total_remove(s.drop_last(), k);
        assert(s.remove(k).drop_last() =~= s.drop_last().remove(k));
        assert(s.remove(k).last() == s.last());
    }
}

/// The sum of a sequence does not depend on the order in which it is taken.
pub proof fn lemma_total_of_arranged(s: Seq<nat>, order: Seq<int>)
    requires
        is_permutation(order, s.len()),
    ensures
        total(arranged(s, order)) == total(s),
    decreases s.len(),
{
    if s.len() > 0 {
        let n = s.len() as int;
        lemma_permutation_holds_every_position(order, s.len(), n - 1);
        let k = choose|k: int| 0 <= k < order.len() && order[k] == n - 1;
        let rest = order.remove(k);
        assert forall|p: int| 0 <= p < rest.len() implies 0 <= #[trigger] rest[p] < n - 1 by {
            if p < k {
                assert(rest[p] == order[p]);
                assert(order[p] != order[k]);
            } else {
                assert(rest[p] == order[p + 1]);
                assert(order[k] != order[p + 1]);
            }
        }
        assert forall|p: int, q: int| 0 <= p < q < rest.len() implies #[trigger] rest[p]
            != #[trigger] rest[q] by {
            let p0 = if p < k {
                p
            } else {
                p + 1
            };
            let q0 = if q < k {
                q
            } else {
                q + 1
            };
            assert(rest[p] == order[p0]);
            assert(rest[q] == order[q0]);
            assert(order[p0] != order[q0]);
        }
        assert(is_permutation(rest, (n - 1) as nat));
        let taken = arranged(s, order);
        assert(taken.remove(k) =~= arranged(s.drop_last(), rest));
        lemma_total_remove(taken, k);
        lemma_total_of_arranged(s.drop_last(), rest);
    } else {
        assert(arranged(s, order) =~= s);
    }
}

/// Whether the entry at position `a` is shown before the one at position `b`.
spec fn before(sizes: Seq<u64>, a: usize, b: usize) -> bool {
    sizes[a as int] > sizes[b as int] || (sizes[a as int] == sizes[b as int] && a < b)
}

/// Whether `order` lists the positions from `from` up to `to`, each once, in the
/// order in which their entries are shown.
spec fn in_order(order: Seq<usize>, sizes: Seq<u64>, from: int, to: int) -> bool {
    &&& order.len() == to - from
    &&& forall|p: int| 0 <= p < order.len() ==> from <= #[trigger] order[p] < to
    &&& forall|p: int, q: int|
        0 <= p < q < order.len() ==> before(sizes, #[trigger] order[p], #[trigger] order[q])
}

proof fn lemma_in_order_is_order(order: Seq<usize>, sizes: Seq<u64>, from: int, to: int)
    requires
        0 <= from <= to <= sizes.len(),
        in_order(order, sizes, from, to),
    ensures
        is_order_of_range(positions(order), naturals(sizes), from, to),
{
    let o = positions(order);
    let s = naturals(sizes);
    assert forall|p: int, q: int| 0 <= p < q < o.len() implies precedes(
        s,
        #[trigger] o[p],
        #[trigger] o[q],
    ) by {
        assert(before(sizes, order[p], order[q]));
    }
}

/// Merges the orders of two neighbouring ranges of positions into the order of
/// both.
fn merge(
    sizes: &Vec<u64>,
    left: &Vec<usize>,
    right: &Vec<usize>,
    Ghost(from): Ghost<int>,
    Ghost(mid): Ghost<int>,
    Ghost(to): Ghost<int>,
) -> (merged: Vec<usize>)
    requires
        0 <= from <= mid <= to <= sizes.len(),
        in_order(left@, sizes@, from, mid),
        in_order(right@, sizes@, mid, to),
    ensures
        in_order(merged@, sizes@, from, to),
{
    let mut merged: Vec<usize> = Vec::new();
    let mut i: usize = 0;
    let mut j: usize = 0;
    while i < left.len() || j < right.len()
        invariant
            0 <= from <= mid <= to <= sizes.len(),
            in_order(left@, sizes@, from, mid),
            in_order(right@, sizes@, mid, to),
            i <= left.len(),
            j <= right.len(),
            merged.len() == i + j,
            forall|p: int| 0 <= p < merged.len() ==> from <= #[trigger] merged[p] < to,
            forall|p: int, q: int|
                0 <= p < q < merged.len() ==> before(
                    sizes@,
                    #[trigger] merged[p],
                    #[trigger] merged[q],
                ),
            forall|p: int, r: int|
                0 <= p < merged.len() && i <= r < left.len() ==> before(
                    sizes@,
                    #[trigger] merged[p],
                    #[trigger] left[r],
                ),
            forall|p: int, r: int|
                0 <= p < merged.len() && j <= r < right.len() ==> before(
                    sizes@,
                    #[trigger] merged[p],
                    #[trigger] right[r],
                ),
        decreases left.len() - i + right.len() - j,
    {
        let from_left = if i == left.len() {
            false
        } else if j == right.len() {
            true
        } else {
            sizes[left[i]] >= sizes[right[j]]
        };
        let ghost earlier = merged@;
        if from_left {
            let next = left[i];
            merged.push(next);
            proof {
                assert forall|p: int, r: int|
                    0 <= p < merged.len() && i + 1 <= r < left.len() implies before(
                    sizes@,
                    #[trigger] merged[p],
                    #[trigger] left[r],
                ) by {
                    if p < earlier.len() {
                        assert(merged[p] == earlier[p]);
                    } else {
                        assert(before(sizes@, left[i as int], left[r]));
                    }
                }
                assert forall|p: int, r: int|
                    0 <= p < merged.len() && j <= r < right.len() implies before(
                    sizes@,
                    #[trigger] merged[p],
                    #[trigger] right[r],
                ) by {
                    if p < earlier.len() {
                        assert(merged[p] == earlier[p]);
                    } else {
                        assert(left[i as int] < mid <= right[r]);
                        assert(left[i as int] < mid <= right[j as int]);
                        if r > j {
                            assert(before(sizes@, right[j as int], right[r]));
                        }
                    }
                }
                assert forall|p: int, q: int| 0 <= p < q < merged.len() implies before(
                    sizes@,
                    #[trigger] merged[p],
                    #[trigger] merged[q],
                ) by {
                    assert(merged[p] == earlier[p]);
                    if q < earlier.len() {
                        assert(merged[q] == earlier[q]);
                    } else {
                        assert(before(sizes@, earlier[p], left[i as int]));
                    }
                }
            }
            i = i + 1;
        } else {
            let next = right[j];
            merged.push(next);
            proof {
                assert forall|p: int, r: int|
                    0 <= p < merged.len() && j + 1 <= r < right.len() implies before(
                    sizes@,
                    #[trigger] merged[p],
                    #[trigger] right[r],
                ) by {
                    if p < earlier.len() {
                        assert(merged[p] == earlier[p]);
                    } else {
                        assert(before(sizes@, right[j as int], right[r]));
                    }
                }
                assert forall|p: int, r: int|
                    0 <= p < merged.len() && i <= r < left.len() implies before(
                    sizes@,
                    #[trigger] merged[p],
                    #[trigger] left[r],
                ) by {
                    if p < earlier.len() {
                        assert(merged[p] == earlier[p]);
                    } else {
                        assert(left[r] < mid <= right[j as int]);
                        assert(left[i as int] < mid);
                        if r > i {
                            assert(before(sizes@, left[i as int], left[r]));
                        }
                    }
                }
                assert forall|p: int, q: int| 0 <= p < q < merged.len() implies before(
                    sizes@,
                    #[trigger] merged[p],
                    #[trigger] merged[q],
                ) by {
                    assert(merged[p] == earlier[p]);
                    if q < earlier.len() {
                        assert(merged[q] == earlier[q]);
                    } else {
                        assert(before(sizes@, earlier[p], right[j as int]));
                    }
                }
            }
            j = j + 1;
        }
    }
    merged
}

/// The order in which the entries at the positions from `from` up to `to` are
/// shown.
fn sort_range(sizes: &Vec<u64>, from: usize, to: usize) -> (order: Vec<usize>)
    requires
        from <= to <= sizes.len(),
    ensures
        in_order(order@, sizes@, from as int, to as int),
    decreases to - from,
{
    if to - from == 0 {
        Vec::new()
    } else if to - from == 1 {
        let mut order: Vec<usize> = Vec::new();
        order.push(from);
        order
    } else {
        let mid: usize = from + (to - from) / 2;
        let left = sort_range(sizes, from, mid);
        let right = sort_range(sizes, mid, to);
        merge(sizes, &left, &right, Ghost(from as int), Ghost(mid as int), Ghost(to as int))
    }
}

/// The order in which entries of the given sizes are shown: the positions of
/// the larger sizes first, and those of equal sizes as they came.
pub fn sort_descending(sizes: &Vec<u64>) -> (order: Vec<usize>)
    ensures
        is_descending_order(positions(order@), naturals(sizes@)),
        positions(order@) == descending_order(naturals(sizes@)),
{
    let order = sort_range(sizes, 0, sizes.len());
    proof {
        lemma_in_order_is_order(order@, sizes@, 0, sizes.len() as int);
        lemma_descending_order_unique(
            positions(order@),
            positions(order@),
            naturals(sizes@),
        );
    }
    order
}

/// Takes `items` in the given order of their positions.
pub fn rearrange<T>(items: Vec<T>, order: &Vec<usize>) -> (taken: Vec<T>)
    requires
        is_permutation(positions(order@), items@.len()),
    ensures
        taken@ == arranged(items@, positions(order@)),
{
    let ghost given = items@;
    proof {
        let o = positions(order@);
        assert forall|p: int| 0 <= p < order@.len() implies #[trigger] order@[p] < items@.len() by {
            assert(0 <= o[p] < items@.len());
        }
        assert forall|p: int, q: int| 0 <= p < q < order@.len() implies #[trigger] order@[p]
            != #[trigger] order@[q] by {
            assert(o[p] != o[q]);
        }
    }
    let n = items.len();
    let mut items = items;
    let mut slots: Vec<Option<T>> = Vec::new();
    while items.len() > 0
        invariant
            n == given.len(),
            slots.len() + items.len() == n,
            items@ == given.take(items.len() as int),
            forall|k: int| 0 <= k < slots.len() ==> #[trigger] slots[k] == Some(given[n - 1 - k]),
        decreases items.len(),
    {
        let item = items.pop().unwrap();
        assert(item == given[items.len() as int]);
        assert(items@ =~= given.take(items.len() as int));
        slots.push(Some(item));
    }
    let mut taken: Vec<T> = Vec::new();
    let mut p: usize = 0;
    while p < n
        invariant
            n == given.len(),
            order@.len() == n,
            slots.len() == n,
            p <= n,
            taken.len() == p,
            forall|k: int| 0 <= k < order@.len() ==> #[trigger] order@[k] < n,
            forall|k: int, q: int|
                0 <= k < q < order@.len() ==> #[trigger] order@[k] != #[trigger] order@[q],
            forall|k: int| 0 <= k < p ==> #[trigger] taken[k] == given[order@[k] as int],
            forall|position: int|
                0 <= position < n && (forall|k: int| 0 <= k < p ==> order@[k] != position)
                    ==> #[trigger] slots[n - 1 - position] == Some(given[position]),
        decreases n - p,
    {
        let position = order[p];
        assert(forall|k: int| 0 <= k < p ==> order@[k] != position);
        let slot = n - 1 - position;
        assert(slots[slot as int] == Some(given[position as int]));
        let item = slots[slot].take().unwrap();
        taken.push(item);
        p = p + 1;
    }
    assert(taken@ =~= arranged(given, positions(order@)));
    taken
}

} // verus!
