//! The application of a permutation to boxes and indices.

use crate::indices::MutableIndices;
use crate::rtree::sort::{is_permutation, lemma_permutation_reaches};
use vstd::prelude::*;

verus! {

/// Storage of a permutation, as used by [`apply_permutation`].
///
/// Position `i` stores the original index of the element that should be moved to `i`. The same code
/// thereby serves a plain buffer of indices and a buffer of sort keys with their indices.
pub trait PermIndices {
    /// What is stored beside each index.
    type Key;

    /// The stored indices.
    spec fn perm(&self) -> Seq<u32>;

    /// What is stored beside the indices.
    spec fn keys(&self) -> Seq<Self::Key>;

    /// The number of stored indices.
    fn len(&self) -> (len: usize)
        ensures
            len == self.perm().len(),
    ;

    /// The index at position `i`.
    fn get(&self, i: usize) -> (index: u32)
        requires
            i < self.perm().len(),
        ensures
            index == self.perm()[i as int],
    ;

    /// Replaces the index at position `i`.
    fn set(&mut self, i: usize, index: u32)
        requires
            i < old(self).perm().len(),
        ensures
            final(self).perm() == old(self).perm().update(i as int, index),
            final(self).keys() == old(self).keys(),
    ;
}

impl PermIndices for [u32] {
    type Key = ();

    open spec fn perm(&self) -> Seq<u32> {
        self@
    }

    open spec fn keys(&self) -> Seq<()> {
        Seq::new(self@.len(), |i: int| ())
    }

    fn len(&self) -> (len: usize) {
        <[u32]>::len(self)
    }

    fn get(&self, i: usize) -> (index: u32) {
        self[i]
    }

    fn set(&mut self, i: usize, index: u32) {
        self[i] = index;
    }
}

impl<T> PermIndices for [(T, u32)] {
    type Key = T;

    open spec fn perm(&self) -> Seq<u32> {
        Seq::new(self@.len(), |i: int| self@[i].1)
    }

    open spec fn keys(&self) -> Seq<T> {
        Seq::new(self@.len(), |i: int| self@[i].0)
    }

    fn len(&self) -> (len: usize) {
        <[(T, u32)]>::len(self)
    }

    fn get(&self, i: usize) -> (index: u32) {
        self[i].1
    }

    fn set(&mut self, i: usize, index: u32) {
        self[i].1 = index;
    }
}

/// The permutation that moves nothing, on `n` elements.
pub open spec fn identity(n: nat) -> Seq<u32> {
    Seq::new(n, |i: int| i as u32)
}

/// The positions that elements come from.
pub open spec fn order_of(perm: Seq<u32>) -> Seq<int> {
    Seq::new(perm.len(), |i: int| perm[i] as int)
}

/// `s` with the element from `perm[i]` at each position `i` of `perm`, and unchanged behind.
pub open spec fn permuted<A>(s: Seq<A>, perm: Seq<u32>) -> Seq<A> {
    Seq::new(
        s.len(),
        |i: int|
            if i < perm.len() {
                s[perm[i] as int]
            } else {
                s[i]
            },
    )
}

/// `boxes` with the box from `perm[i]` at each position `i` of `perm`, and unchanged behind. A box
/// is made of four values.
pub open spec fn permuted_boxes<N>(boxes: Seq<N>, perm: Seq<u32>) -> Seq<N> {
    Seq::new(
        boxes.len(),
        |j: int|
            if j < 4 * perm.len() {
                boxes[4 * perm[j / 4] + j % 4]
            } else {
                boxes[j]
            },
    )
}

/// Apply a permutation to `boxes` and `indices` using cycle-following.
///
/// `perm[i]` is the original index of the element that should end up at position `i`.
/// After this call, `boxes` and `indices` are reordered according to `perm`,
/// and `perm` is consumed (set to the identity).
///
/// Time: O(n), each element moved exactly once.
/// Extra space: O(1) beyond the `perm` array.
pub fn apply_permutation<'a, N: Copy, P: PermIndices + ?Sized>(
    perm: &mut P,
    boxes: &mut [N],
    indices: &mut MutableIndices<'a>,
)
    requires
        is_permutation(order_of(old(perm).perm()), old(perm).perm().len()),
        old(perm).perm().len() <= old(indices)@.len(),
        4 * old(perm).perm().len() <= old(boxes)@.len(),
    ensures
        final(perm).perm() == identity(old(perm).perm().len()),
        final(perm).keys() == old(perm).keys(),
        final(boxes)@ == permuted_boxes(old(boxes)@, old(perm).perm()),
        final(indices)@ == permuted(old(indices)@, old(perm).perm()),
        match (*old(indices), *final(indices)) {
            (MutableIndices::U16(before), MutableIndices::U16(after)) => {
                final(after)@ == final(before)@
            },
            (MutableIndices::U32(before), MutableIndices::U32(after)) => {
                final(after)@ == final(before)@
            },
            _ => false,
        },
{
    proof {
        lemma_stays_within(perm.perm());
    }
    match indices {
        MutableIndices::U16(indices) => do_apply_permutation(perm, boxes, indices),
        MutableIndices::U32(indices) => do_apply_permutation(perm, boxes, indices),
    }
}

/// How many positions of `perm` do not store themselves.
spec fn displaced(perm: Seq<u32>) -> nat
    decreases perm.len(),
{
    if perm.len() == 0 {
        0
    } else {
        displaced(perm.drop_last()) + if perm.last() == perm.len() - 1 {
            0nat
        } else {
            1nat
        }
    }
}

/// A position that comes to store itself is one less that does not.
proof fn lemma_displaced(perm: Seq<u32>, q: int)
    requires
        0 <= q < perm.len(),
        q <= u32::MAX,
        perm[q] != q,
    ensures
        displaced(perm.update(q, q as u32)) < displaced(perm),
    decreases perm.len(),
{
    let after = perm.update(q, q as u32);
    if q == perm.len() - 1 {
        assert(after.drop_last() =~= perm.drop_last());
    } else {
        assert(after.drop_last() =~= perm.drop_last().update(q, q as u32));
        lemma_displaced(perm.drop_last(), q);
    }
}

/// The box at position `q`.
spec fn box_at<N>(boxes: Seq<N>, q: int) -> [N; 4] {
    [boxes[4 * q], boxes[4 * q + 1], boxes[4 * q + 2], boxes[4 * q + 3]]
}

/// `boxes` with another box at position `q`.
spec fn with_box<N>(boxes: Seq<N>, q: int, bbox: [N; 4]) -> Seq<N> {
    Seq::new(
        boxes.len(),
        |j: int|
            if j / 4 == q {
                bbox[j % 4]
            } else {
                boxes[j]
            },
    )
}

/// How far a permutation has been applied: a position that stores itself has the element that it
/// should have, and any other stores what it did and has the element that it had.
#[verifier::opaque]
spec fn applied<N, I>(
    order: Seq<u32>,
    perm: Seq<u32>,
    boxes0: Seq<N>,
    boxes: Seq<N>,
    indices0: Seq<I>,
    indices: Seq<I>,
) -> bool {
    &&& perm.len() == order.len()
    &&& boxes.len() == boxes0.len()
    &&& indices.len() == indices0.len()
    &&& forall|q: int|
        0 <= q < order.len() ==> {
            let from = if #[trigger] perm[q] == q {
                order[q] as int
            } else {
                q
            };
            &&& perm[q] == q || perm[q] == order[q]
            &&& box_at(boxes, q) == box_at(boxes0, from)
            &&& indices[q] == indices0[from]
        }
    &&& forall|j: int| 4 * order.len() <= j < boxes0.len() ==> #[trigger] boxes[j] == boxes0[j]
    &&& forall|j: int| order.len() <= j < indices0.len() ==> #[trigger] indices[j] == indices0[j]
}

/// Whether no two positions take from the same, and none from outside.
spec fn is_one_to_one(order: Seq<u32>) -> bool {
    &&& forall|q: int| 0 <= q < order.len() ==> (#[trigger] order[q]) < order.len()
    &&& forall|p: int, q: int|
        0 <= p < order.len() && 0 <= q < order.len() && #[trigger] order[p] == #[trigger] order[q]
            ==> p == q
}

/// Whether each position that does not store itself takes from another such, or from `start`.
#[verifier::opaque]
spec fn cycles_remain(order: Seq<u32>, perm: Seq<u32>, start: int) -> bool {
    forall|q: int|
        0 <= q < order.len() && #[trigger] perm[q] != q ==> order[q] == start
            || perm[order[q] as int] != order[q]
}

/// Whether no position that does not store itself takes from `hole`.
#[verifier::opaque]
spec fn is_left(order: Seq<u32>, perm: Seq<u32>, hole: int) -> bool {
    forall|q: int| 0 <= q < order.len() && #[trigger] perm[q] != q ==> order[q] != hole
}

/// A permutation does not reach outside, and 32 bits suffice to store it.
proof fn lemma_stays_within(perm: Seq<u32>)
    requires
        is_permutation(order_of(perm), perm.len()),
    ensures
        is_one_to_one(perm),
        perm.len() <= u32::MAX + 1,
{
    let n = perm.len();
    let order = order_of(perm);
    assert forall|q: int| 0 <= q < n implies (#[trigger] perm[q]) < n by {
        assert(order[q] < n);
    }
    assert forall|p: int, q: int|
        0 <= p < n && 0 <= q < n && #[trigger] perm[p] == #[trigger] perm[q] implies p == q by {
        assert(order[p] == order[q]);
    }
    if n > 0 {
        let last = lemma_permutation_reaches(order, n, n - 1);
        assert(perm[last] == n - 1);
    }
}

/// Nothing has been applied at first.
proof fn lemma_nothing_applied<N, I>(order: Seq<u32>, boxes: Seq<N>, indices: Seq<I>)
    requires
        is_one_to_one(order),
        order.len() <= indices.len(),
        4 * order.len() <= boxes.len(),
    ensures
        applied(order, order, boxes, boxes, indices, indices),
        cycles_remain(order, order, -1),
{
    reveal(applied);
    reveal(cycles_remain);
}

/// What it means to place an element.
proof fn lemma_placed<N, I>(
    order: Seq<u32>,
    perm: Seq<u32>,
    boxes0: Seq<N>,
    boxes: Seq<N>,
    indices0: Seq<I>,
    indices: Seq<I>,
    q: int,
)
    requires
        is_one_to_one(order),
        applied(order, perm, boxes0, boxes, indices0, indices),
        0 <= q < order.len() <= indices0.len(),
        4 * order.len() <= boxes0.len(),
        q <= u32::MAX,
        perm[q] != q,
    ensures
        applied(
            order,
            perm.update(q, q as u32),
            boxes0,
            with_box(boxes, q, box_at(boxes0, order[q] as int)),
            indices0,
            indices.update(q, indices0[order[q] as int]),
        ),
{
    reveal(applied);
    let perm1 = perm.update(q, q as u32);
    let bbox = box_at(boxes0, order[q] as int);
    let boxes1 = with_box(boxes, q, bbox);
    let indices1 = indices.update(q, indices0[order[q] as int]);
    assert forall|p: int| 0 <= p < order.len() implies {
        let from = if #[trigger] perm1[p] == p {
            order[p] as int
        } else {
            p
        };
        &&& perm1[p] == p || perm1[p] == order[p]
        &&& box_at(boxes1, p) == box_at(boxes0, from)
        &&& indices1[p] == indices0[from]
    } by {
        let old_perm = perm[p];
        if p == q {
            assert(box_at(boxes1, p) =~= bbox);
        } else {
            assert(box_at(boxes1, p) =~= box_at(boxes, p));
        }
    }
}

/// What placing an element leaves of the cycle that it is on.
proof fn lemma_cycle_shrinks(order: Seq<u32>, perm: Seq<u32>, start: int, hole: int)
    requires
        is_one_to_one(order),
        perm.len() == order.len(),
        0 <= hole < order.len(),
        hole <= u32::MAX,
        perm[hole] != hole,
        cycles_remain(order, perm, start),
        hole == start || is_left(order, perm, hole),
    ensures
        cycles_remain(order, perm.update(hole, hole as u32), start),
        is_left(order, perm.update(hole, hole as u32), order[hole] as int),
        order[hole] == start ==> cycles_remain(order, perm.update(hole, hole as u32), -1),
{
    reveal(cycles_remain);
    reveal(is_left);
    let after = perm.update(hole, hole as u32);
    assert forall|q: int| 0 <= q < order.len() && #[trigger] after[q] != q implies (order[q]
        == start || after[order[q] as int] != order[q]) && order[q] != order[hole] by {
        assert(perm[q] != q);
    }
}

/// The box at position `q`.
fn get_box<N: Copy>(boxes: &[N], q: usize) -> (bbox: [N; 4])
    requires
        4 * q + 3 < boxes@.len(),
    ensures
        bbox == box_at(boxes@, q as int),
{
    assert(boxes.len() <= usize::MAX);
    let bbox = [boxes[q * 4], boxes[q * 4 + 1], boxes[q * 4 + 2], boxes[q * 4 + 3]];
    assert(bbox =~= box_at(boxes@, q as int));
    bbox
}

/// Replaces the box at position `q`.
fn set_box<N: Copy>(boxes: &mut [N], q: usize, bbox: [N; 4])
    requires
        4 * q + 3 < old(boxes)@.len(),
    ensures
        final(boxes)@ == with_box(old(boxes)@, q as int, bbox),
{
    assert(boxes.len() <= usize::MAX);
    boxes[q * 4] = bbox[0];
    boxes[q * 4 + 1] = bbox[1];
    boxes[q * 4 + 2] = bbox[2];
    boxes[q * 4 + 3] = bbox[3];
    assert(boxes@ =~= with_box(old(boxes)@, q as int, bbox));
}

/// Applies the cycle of a permutation that goes through `start`.
fn follow_cycle<N: Copy, I: Copy, P: PermIndices + ?Sized>(
    perm: &mut P,
    boxes: &mut [N],
    indices: &mut [I],
    start: usize,
    Ghost(order): Ghost<Seq<u32>>,
    Ghost(boxes0): Ghost<Seq<N>>,
    Ghost(indices0): Ghost<Seq<I>>,
)
    requires
        is_one_to_one(order),
        order.len() <= u32::MAX + 1,
        order.len() <= indices0.len(),
        4 * order.len() <= boxes0.len(),
        applied(order, old(perm).perm(), boxes0, old(boxes)@, indices0, old(indices)@),
        cycles_remain(order, old(perm).perm(), -1),
        start < order.len(),
        old(perm).perm()[start as int] != start,
    ensures
        applied(order, final(perm).perm(), boxes0, final(boxes)@, indices0, final(indices)@),
        cycles_remain(order, final(perm).perm(), -1),
        final(perm).perm()[start as int] == start,
        forall|q: int|
            0 <= q < order.len() && old(perm).perm()[q] == q ==> #[trigger] final(perm).perm()[q]
                == q,
        final(perm).keys() == old(perm).keys(),
{
    proof {
        reveal(applied);
        reveal(cycles_remain);
        assert(perm.perm()[start as int] == order[start as int]);
    }
    // The element at the start waits until the place is reached that it moves to.
    let bbox = get_box(boxes, start);
    let index = indices[start];
    let mut hole = start;
    let mut src = perm.get(hole) as usize;
    while src != start
        invariant
            is_one_to_one(order),
            order.len() <= u32::MAX + 1,
            order.len() <= indices0.len(),
            4 * order.len() <= boxes0.len(),
            applied(order, perm.perm(), boxes0, boxes@, indices0, indices@),
            cycles_remain(order, perm.perm(), start as int),
            perm.perm().len() == order.len(),
            boxes@.len() == boxes0.len(),
            indices@.len() == indices0.len(),
            start < order.len(),
            hole < order.len(),
            src == order[hole as int],
            perm.perm()[hole as int] != hole,
            hole == start || is_left(order, perm.perm(), hole as int) && perm.perm()[start as int]
                == start,
            forall|q: int|
                0 <= q < order.len() && old(perm).perm()[q] == q ==> #[trigger] perm.perm()[q] == q,
            perm.keys() == old(perm).keys(),
            bbox == box_at(boxes0, start as int),
            index == indices0[start as int],
        decreases displaced(perm.perm()),
    {
        proof {
            let before = perm.perm();
            lemma_displaced(before, hole as int);
            lemma_placed(order, before, boxes0, boxes@, indices0, indices@, hole as int);
            lemma_cycle_shrinks(order, before, start as int, hole as int);
            reveal(applied);
            reveal(cycles_remain);
            assert(before[hole as int] == order[hole as int]);
            assert(before[src as int] == order[src as int]);
        }
        let next = get_box(boxes, src);
        set_box(boxes, hole, next);
        indices[hole] = indices[src];
        perm.set(hole, hole as u32);
        hole = src;
        src = perm.get(hole) as usize;
    }
    proof {
        lemma_placed(order, perm.perm(), boxes0, boxes@, indices0, indices@, hole as int);
        lemma_cycle_shrinks(order, perm.perm(), start as int, hole as int);
    }
    set_box(boxes, hole, bbox);
    indices[hole] = index;
    perm.set(hole, hole as u32);
}

fn do_apply_permutation<N: Copy, I: Copy, P: PermIndices + ?Sized>(
    perm: &mut P,
    boxes: &mut [N],
    indices: &mut [I],
)
    requires
        is_permutation(order_of(old(perm).perm()), old(perm).perm().len()),
        old(perm).perm().len() <= old(indices)@.len(),
        4 * old(perm).perm().len() <= old(boxes)@.len(),
    ensures
        final(perm).perm() == identity(old(perm).perm().len()),
        final(perm).keys() == old(perm).keys(),
        final(boxes)@ == permuted_boxes(old(boxes)@, old(perm).perm()),
        final(indices)@ == permuted(old(indices)@, old(perm).perm()),
{
    let n = perm.len();
    let ghost order = perm.perm();
    let ghost boxes0 = boxes@;
    let ghost indices0 = indices@;
    proof {
        lemma_stays_within(order);
        lemma_nothing_applied(order, boxes0, indices0);
    }
    let mut i: usize = 0;
    while i < n
        invariant
            i <= n,
            n == order.len(),
            n <= u32::MAX + 1,
            4 * n <= boxes0.len(),
            n <= indices0.len(),
            is_one_to_one(order),
            perm.perm().len() == n,
            perm.keys() == old(perm).keys(),
            applied(order, perm.perm(), boxes0, boxes@, indices0, indices@),
            cycles_remain(order, perm.perm(), -1),
            forall|q: int| 0 <= q < i ==> #[trigger] perm.perm()[q] == q,
        decreases n - i,
    {
        if perm.get(i) as usize != i {
            follow_cycle(
                perm,
                boxes,
                indices,
                i,
                Ghost(order),
                Ghost(boxes0),
                Ghost(indices0),
            );
            proof {
                reveal(applied);
            }
        }
        i += 1;
    }
    proof {
        reveal(applied);
        assert(perm.perm() =~= identity(order.len()));
        assert forall|j: int| 0 <= j < boxes@.len() implies #[trigger] boxes@[j] == permuted_boxes(
            boxes0,
            order,
        )[j] by {
            if j < 4 * order.len() {
                let q = j / 4;
                assert(perm.perm()[q] == q);
                assert(box_at(boxes@, q)[j % 4] == box_at(boxes0, order[q] as int)[j % 4]);
            }
        }
        assert(boxes@ =~= permuted_boxes(boxes0, order));
        assert forall|j: int| 0 <= j < indices@.len() implies #[trigger] indices@[j] == permuted(
            indices0,
            order,
        )[j] by {
            if j < order.len() {
                assert(perm.perm()[j] == j);
            }
        }
        assert(indices@ =~= permuted(indices0, order));
    }
}

} // verus!
