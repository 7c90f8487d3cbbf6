//! Block-wise sorting.

use std::cmp::Ordering;
use vstd::prelude::*;

verus! {

/// The order that a comparison function stands for: on the elements of `s`, `leq` is a total
/// preorder, and whatever `compare` answers on two of them agrees with it.
pub open spec fn orders<T, F: FnMut(&T, &T) -> Ordering>(
    compare: F,
    leq: spec_fn(T, T) -> bool,
    s: Seq<T>,
) -> bool {
    &&& forall|x: T, y: T|
        s.contains(x) && s.contains(y) ==> (#[trigger] leq(x, y) || leq(y, x))
    &&& forall|x: T, y: T, z: T|
        s.contains(x) && s.contains(y) && s.contains(z) && #[trigger] leq(x, y) && #[trigger] leq(
            y,
            z,
        ) ==> leq(x, z)
    &&& forall|x: T, y: T, answer: Ordering|
        s.contains(x) && s.contains(y) && #[trigger] call_ensures(compare, (&x, &y), answer)
            ==> match answer {
            Ordering::Less => leq(x, y) && !leq(y, x),
            Ordering::Equal => leq(x, y) && leq(y, x),
            Ordering::Greater => leq(y, x) && !leq(x, y),
        }
}

/// Whether `compare` can be called on any two elements of `s`, and stands for some order on them.
pub open spec fn is_ordering<T, F: FnMut(&T, &T) -> Ordering>(compare: F, s: Seq<T>) -> bool {
    &&& forall|x: T, y: T|
        s.contains(x) && s.contains(y) ==> #[trigger] call_requires(compare, (&x, &y))
    &&& exists|leq: spec_fn(T, T) -> bool| orders(compare, leq, s)
}

/// Whether a comparison function can still be called where it could before, and gives the answers
/// that it could give before.
pub open spec fn compares_alike<T, F: FnMut(&T, &T) -> Ordering>(before: F, after: F) -> bool {
    &&& forall|x: T, y: T| #[trigger]
        call_requires(after, (&x, &y)) == call_requires(before, (&x, &y))
    &&& forall|x: T, y: T, answer: Ordering| #[trigger]
        call_ensures(after, (&x, &y), answer) == call_ensures(before, (&x, &y), answer)
}

/// Whether the element at `index` of `s` stands where a sort would put it: nothing before it is
/// greater, and nothing behind it is smaller.
pub open spec fn nth_in_place<T>(s: Seq<T>, index: usize, leq: spec_fn(T, T) -> bool) -> bool {
    &&& forall|i: int| 0 <= i <= index ==> leq(#[trigger] s[i], s[index as int])
    &&& forall|i: int| index <= i < s.len() ==> leq(s[index as int], #[trigger] s[i])
}

/// Whether `s` is in ascending order.
pub open spec fn ascending<T>(s: Seq<T>, leq: spec_fn(T, T) -> bool) -> bool {
    forall|i: int, j: int| 0 <= i <= j < s.len() ==> leq(#[trigger] s[i], #[trigger] s[j])
}

/// Whether no element of `s` is greater than an element of a later block, where `s` is cut from
/// its start into blocks of `k` elements.
pub open spec fn block_ordered<T>(s: Seq<T>, k: usize, leq: spec_fn(T, T) -> bool) -> bool {
    forall|i: int, j: int|
        0 <= i < j < s.len() && i / (k as int) < j / (k as int) ==> leq(
            #[trigger] s[i],
            #[trigger] s[j],
        )
}

/// Calls [`slice::sort_unstable_by`]: the slice keeps its elements and is left in ascending order
/// of the comparison function, which must stand for an order on the elements. The function is only
/// called, so that it compares as it did.
#[verifier::external_body]
fn sort_unstable_by<T, F: FnMut(&T, &T) -> Ordering>(arr: &mut [T], compare: &mut F)
    requires
        is_ordering(*old(compare), old(arr)@),
    ensures
        compares_alike(*old(compare), *final(compare)),
        final(arr)@.to_multiset() == old(arr)@.to_multiset(),
        forall|leq: spec_fn(T, T) -> bool| #[trigger]
            orders(*old(compare), leq, old(arr)@) ==> ascending(final(arr)@, leq),
{
    arr.sort_unstable_by(compare)
}

/// Calls [`slice::select_nth_unstable_by`]: the slice keeps its elements, and the element that is
/// left at `index` has nothing greater before it and nothing smaller behind it, by the comparison
/// function, which must stand for an order on the elements. The function is only called, so that it
/// compares as it did.
#[verifier::external_body]
fn select_nth_unstable_by<T, F: FnMut(&T, &T) -> Ordering>(
    arr: &mut [T],
    index: usize,
    compare: &mut F,
)
    requires
        index < old(arr)@.len(),
        is_ordering(*old(compare), old(arr)@),
    ensures
        compares_alike(*old(compare), *final(compare)),
        final(arr)@.to_multiset() == old(arr)@.to_multiset(),
        forall|leq: spec_fn(T, T) -> bool| #[trigger]
            orders(*old(compare), leq, old(arr)@) ==> nth_in_place(final(arr)@, index, leq),
{
    arr.select_nth_unstable_by(index, compare);
}

/// Partitions `arr` into blocks of `k` elements such that no element of a block is greater than an
/// element of a later block. A block size of one sorts the slice, and a slice that is no longer than
/// one block stays as it is, without a comparison.
///
/// Selection takes linear time on each level of the recursion, so the work is O(n log(n / k)).
pub fn k_block_sort_by<T, F>(arr: &mut [T], k: usize, compare: F) where
    F: FnMut(&T, &T) -> Ordering,

    requires
        k > 0,
        old(arr)@.len() > k ==> is_ordering(compare, old(arr)@),
    ensures
        final(arr)@.to_multiset() == old(arr)@.to_multiset(),
        old(arr)@.len() <= k ==> final(arr)@ == old(arr)@,
        forall|leq: spec_fn(T, T) -> bool| #[trigger]
            orders(compare, leq, old(arr)@) ==> block_ordered(final(arr)@, k, leq),
{
    let mut compare = compare;
    if k == 1 && arr.len() > 1 {
        // Blocks of one element are ordered only when the whole slice is.
        sort_unstable_by(arr, &mut compare);
    } else {
        do_k_block_sort_by(arr, k, &mut compare);
    }
}

/// Functions that compare alike stand for the same orders.
proof fn lemma_alike_orders<T, F: FnMut(&T, &T) -> Ordering>(before: F, after: F, s: Seq<T>)
    requires
        compares_alike(before, after),
    ensures
        is_ordering(before, s) ==> is_ordering(after, s),
        forall|leq: spec_fn(T, T) -> bool| #[trigger]
            orders(before, leq, s) ==> orders(after, leq, s),
{
    assert forall|leq: spec_fn(T, T) -> bool| #[trigger] orders(before, leq, s) implies orders(
        after,
        leq,
        s,
    ) by {}
    if is_ordering(before, s) {
        let leq = choose|leq: spec_fn(T, T) -> bool| orders(before, leq, s);
        assert(orders(after, leq, s));
    }
}

/// Blocks of one element are ordered only when the whole sequence is.
pub proof fn lemma_blocks_of_one_ascend<T>(s: Seq<T>, leq: spec_fn(T, T) -> bool)
    requires
        block_ordered(s, 1, leq),
        forall|i: int| 0 <= i < s.len() ==> leq(#[trigger] s[i], s[i]),
    ensures
        ascending(s, leq),
{
    assert forall|i: int, j: int| 0 <= i <= j < s.len() implies leq(
        #[trigger] s[i],
        #[trigger] s[j],
    ) by {
        assert(i / 1 == i && j / 1 == j);
    }
}

/// An order on the elements of a sequence is an order on any choice of them.
proof fn lemma_orders_on_part<T, F: FnMut(&T, &T) -> Ordering>(compare: F, s: Seq<T>, part: Seq<T>)
    requires
        forall|x: T| part.contains(x) ==> s.contains(x),
    ensures
        is_ordering(compare, s) ==> is_ordering(compare, part),
        forall|leq: spec_fn(T, T) -> bool| #[trigger]
            orders(compare, leq, s) ==> orders(compare, leq, part),
{
    assert forall|leq: spec_fn(T, T) -> bool| #[trigger] orders(compare, leq, s) implies orders(
        compare,
        leq,
        part,
    ) by {}
    if is_ordering(compare, s) {
        let leq = choose|leq: spec_fn(T, T) -> bool| orders(compare, leq, s);
        assert(orders(compare, leq, part));
    }
}

/// Sequences with the same elements, each as often, contain the same elements.
proof fn lemma_same_multiset_contains<T>(s: Seq<T>, t: Seq<T>)
    requires
        s.to_multiset() == t.to_multiset(),
    ensures
        s.len() == t.len(),
        forall|x: T| s.contains(x) <==> t.contains(x),
{
    broadcast use vstd::seq_lib::group_to_multiset_ensures;
    assert(s.len() == s.to_multiset().len() && t.len() == t.to_multiset().len());
    assert forall|x: T| s.contains(x) <==> t.contains(x) by {
        assert(s.contains(x) <==> s.to_multiset().count(x) > 0);
        assert(t.contains(x) <==> t.to_multiset().count(x) > 0);
    }
}

/// What fits into one block is ordered by blocks.
proof fn lemma_one_block<T>(s: Seq<T>, k: usize, leq: spec_fn(T, T) -> bool)
    requires
        k > 0,
        s.len() <= k,
    ensures
        block_ordered(s, k, leq),
{
    assert forall|i: int, j: int|
        0 <= i < j < s.len() && i / (k as int) < j / (k as int) implies leq(
        #[trigger] s[i],
        #[trigger] s[j],
    ) by {
        vstd::arithmetic::div_mod::lemma_basic_div(i, k as int);
        vstd::arithmetic::div_mod::lemma_basic_div(j, k as int);
    }
}

/// With the element behind the first block in place, a sequence of less than two full blocks is
/// ordered by blocks.
proof fn lemma_two_blocks<T>(s: Seq<T>, k: usize, leq: spec_fn(T, T) -> bool)
    requires
        k > 0,
        k < s.len(),
        s.len() < 2 * k,
        nth_in_place(s, k, leq),
        forall|x: T, y: T, z: T|
            s.contains(x) && s.contains(y) && s.contains(z) && #[trigger] leq(x, y)
                && #[trigger] leq(y, z) ==> leq(x, z),
    ensures
        block_ordered(s, k, leq),
{
    assert forall|i: int, j: int|
        0 <= i < j < s.len() && i / (k as int) < j / (k as int) implies leq(
        #[trigger] s[i],
        #[trigger] s[j],
    ) by {
        if k <= i {
            vstd::arithmetic::div_mod::lemma_div_is_ordered(j, 2 * k - 1, k as int);
            vstd::arithmetic::div_mod::lemma_div_is_ordered(k as int, i, k as int);
            assert((2 * k - 1) / (k as int) == 1 && (k as int) / (k as int) == 1)
                by (nonlinear_arith)
                requires
                    k > 0,
            ;
        }
        if j < k {
            vstd::arithmetic::div_mod::lemma_basic_div(i, k as int);
            vstd::arithmetic::div_mod::lemma_basic_div(j, k as int);
        }
        assert(leq(s[i], s[k as int]) && leq(s[k as int], s[j]));
    }
}

/// With the element at `mid` in place, nothing before it is greater than anything from it on.
proof fn lemma_split_at_nth<T>(s: Seq<T>, mid: usize, leq: spec_fn(T, T) -> bool)
    requires
        mid < s.len(),
        nth_in_place(s, mid, leq),
        forall|x: T, y: T, z: T|
            s.contains(x) && s.contains(y) && s.contains(z) && #[trigger] leq(x, y)
                && #[trigger] leq(y, z) ==> leq(x, z),
    ensures
        forall|x: T, y: T|
            s.subrange(0, mid as int).contains(x) && s.subrange(
                mid as int,
                s.len() as int,
            ).contains(y) ==> #[trigger] leq(x, y),
{
    let left = s.subrange(0, mid as int);
    let right = s.subrange(mid as int, s.len() as int);
    assert forall|x: T, y: T| left.contains(x) && right.contains(y) implies #[trigger] leq(
        x,
        y,
    ) by {
        let i = choose|i: int| 0 <= i < left.len() && left[i] == x;
        let j = choose|j: int| 0 <= j < right.len() && right[j] == y;
        assert(s[i] == x && s[mid + j] == y);
        assert(leq(s[i], s[mid as int]) && leq(s[mid as int], s[mid + j]));
    }
}

/// Two sequences that are ordered by blocks make one, where the first is made of full blocks and
/// nothing in it is greater than anything in the second.
proof fn lemma_join_blocks<T>(
    left: Seq<T>,
    right: Seq<T>,
    k: usize,
    blocks: usize,
    leq: spec_fn(T, T) -> bool,
)
    requires
        k > 0,
        left.len() == blocks * k,
        block_ordered(left, k, leq),
        block_ordered(right, k, leq),
        forall|x: T, y: T| left.contains(x) && right.contains(y) ==> #[trigger] leq(x, y),
    ensures
        block_ordered(left + right, k, leq),
{
    let s = left + right;
    let mid = left.len() as int;
    assert forall|i: int, j: int|
        0 <= i < j < s.len() && i / (k as int) < j / (k as int) implies leq(
        #[trigger] s[i],
        #[trigger] s[j],
    ) by {
        if j < mid {
            assert(s[i] == left[i] && s[j] == left[j]);
        } else if i < mid {
            assert(left.contains(left[i]) && right.contains(right[j - mid]));
        } else {
            vstd::arithmetic::div_mod::lemma_hoist_over_denominator(i - mid, blocks as int, k as nat);
            vstd::arithmetic::div_mod::lemma_hoist_over_denominator(j - mid, blocks as int, k as nat);
            assert(s[i] == right[i - mid] && s[j] == right[j - mid]);
        }
    }
}

/// The parts of a split keep their elements, so the whole does.
proof fn lemma_join_multisets<T>(s: Seq<T>, mid: usize, left: Seq<T>, right: Seq<T>)
    requires
        mid <= s.len(),
        left.to_multiset() == s.subrange(0, mid as int).to_multiset(),
        right.to_multiset() == s.subrange(mid as int, s.len() as int).to_multiset(),
    ensures
        (left + right).to_multiset() == s.to_multiset(),
{
    let left0 = s.subrange(0, mid as int);
    let right0 = s.subrange(mid as int, s.len() as int);
    assert(left0 + right0 =~= s);
    vstd::seq_lib::lemma_multiset_commutative(left, right);
    vstd::seq_lib::lemma_multiset_commutative(left0, right0);
}

/// The parts of a split contain nothing but elements of the whole.
proof fn lemma_parts_contained<T>(s: Seq<T>, mid: usize)
    requires
        mid <= s.len(),
    ensures
        forall|x: T| s.subrange(0, mid as int).contains(x) ==> s.contains(x),
        forall|x: T| s.subrange(mid as int, s.len() as int).contains(x) ==> s.contains(x),
{
    let left = s.subrange(0, mid as int);
    let right = s.subrange(mid as int, s.len() as int);
    assert forall|x: T| left.contains(x) implies s.contains(x) by {
        let i = choose|i: int| 0 <= i < left.len() && left[i] == x;
        assert(s[i] == x);
    }
    assert forall|x: T| right.contains(x) implies s.contains(x) by {
        let i = choose|i: int| 0 <= i < right.len() && right[i] == x;
        assert(s[mid + i] == x);
    }
}

/// The middle of the full blocks lies inside of the sequence, at the start of a block.
proof fn lemma_middle_block(len: usize, k: usize)
    requires
        0 < k < len,
        len / k >= 2,
    ensures
        0 < (len / k) / 2 * k < len,
{
    let blocks = len as int / k as int;
    vstd::arithmetic::div_mod::lemma_fundamental_div_mod(len as int, k as int);
    assert(0 < blocks / 2 * k && blocks / 2 * k < len) by (nonlinear_arith)
        requires
            blocks >= 2,
            k > 0,
            k * blocks <= len,
    ;
}

fn do_k_block_sort_by<T, F>(arr: &mut [T], k: usize, compare: &mut F) where
    F: FnMut(&T, &T) -> Ordering,

    requires
        k > 0,
        old(arr)@.len() > k ==> is_ordering(*old(compare), old(arr)@),
    ensures
        compares_alike(*old(compare), *final(compare)),
        final(arr)@.to_multiset() == old(arr)@.to_multiset(),
        old(arr)@.len() <= k ==> final(arr)@ == old(arr)@,
        forall|leq: spec_fn(T, T) -> bool| #[trigger]
            orders(*old(compare), leq, old(arr)@) ==> block_ordered(final(arr)@, k, leq),
    decreases old(arr)@.len(),
{
    let ghost before = arr@;
    let ghost compare0 = *compare;
    let len = arr.len();
    if len <= k {
        assert forall|leq: spec_fn(T, T) -> bool| #[trigger]
            orders(compare0, leq, before) implies block_ordered(arr@, k, leq) by {
            lemma_one_block(arr@, k, leq);
        }
        return;
    }
    let num_blocks: usize = len / k;
    if num_blocks < 2 {
        // One full block and a partial remainder.
        select_nth_unstable_by(arr, k, compare);
        proof {
            lemma_same_multiset_contains(before, arr@);
            lemma_short_of_two_blocks(len, k);
        }
        assert forall|leq: spec_fn(T, T) -> bool| #[trigger]
            orders(compare0, leq, before) implies block_ordered(arr@, k, leq) by {
            lemma_two_blocks(arr@, k, leq);
        }
        return;
    }
    let mid_block: usize = num_blocks / 2;
    proof {
        lemma_middle_block(len, k);
    }
    let mid_idx: usize = mid_block * k;
    select_nth_unstable_by(arr, mid_idx, compare);
    let ghost selected = arr@;
    let ghost compare1 = *compare;
    proof {
        lemma_same_multiset_contains(before, selected);
    }
    let (left, right) = arr.split_at_mut(mid_idx);
    let ghost left0 = left@;
    let ghost right0 = right@;
    proof {
        lemma_parts_contained(selected, mid_idx);
        lemma_orders_on_part(compare0, before, left0);
        lemma_orders_on_part(compare0, before, right0);
        lemma_alike_orders(compare0, compare1, left0);
    }
    do_k_block_sort_by(left, k, compare);
    proof {
        lemma_alike_orders(compare0, *compare, right0);
    }
    do_k_block_sort_by(right, k, compare);
    proof {
        lemma_same_multiset_contains(left0, left@);
        lemma_same_multiset_contains(right0, right@);
        lemma_join_multisets(selected, mid_idx, left@, right@);
    }
    assert forall|leq: spec_fn(T, T) -> bool| #[trigger]
        orders(compare0, leq, before) implies block_ordered(left@ + right@, k, leq) by {
        lemma_split_at_nth(selected, mid_idx, leq);
        lemma_join_blocks(left@, right@, k, mid_block, leq);
    }
}

/// A length with less than two full blocks in it is shorter than two blocks.
proof fn lemma_short_of_two_blocks(len: usize, k: usize)
    requires
        k > 0,
        len / k < 2,
    ensures
        len < 2 * k,
{
    vstd::arithmetic::div_mod::lemma_fundamental_div_mod(len as int, k as int);
    let blocks = len as int / k as int;
    assert(k * blocks <= k) by (nonlinear_arith)
        requires
            blocks <= 1,
            k > 0,
    ;
}

} // verus!
