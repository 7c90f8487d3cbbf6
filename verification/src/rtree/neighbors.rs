//! What a nearest neighbor search finds.

use crate::num::IndexableNum;
use crate::rtree::layout::TreeView;
use crate::rtree::options::NeighborsOptions;
use crate::rtree::sort::{is_permutation, lemma_permutation_reaches};
use crate::rtree::util::lemma_pigeonhole;
use vstd::prelude::*;

verus! {

/// How far the nodes of a tree are from what is searched for.
///
/// What is asked for a distance may answer differently each time it is asked, so these are
/// relations between the position of a node and the answers that may be given for it.
#[verifier::reject_recursive_types(D)]
pub struct Measure<D> {
    /// The answers for nodes that are not items.
    pub node: spec_fn(int, D) -> bool,
    /// The answers for items; None leaves the item out.
    pub item: spec_fn(int, Option<D>) -> bool,
}

/// Whether an answer lets a node take part in a search up to the given distance.
pub open spec fn within<D: IndexableNum>(answer: Option<D>, limit: D) -> bool {
    match answer {
        Some(dist) => dist.rank() <= limit.rank(),
        None => false,
    }
}

impl<D: IndexableNum> NeighborsOptions<D> {
    /// The largest distance at which an item is found.
    pub open spec fn limit(self) -> D {
        match self.max_distance {
            Some(max) => max,
            None => D::spec_max_value(),
        }
    }

    /// These options with the given limit.
    pub open spec fn up_to(self, max: D) -> Self {
        NeighborsOptions { max_distance: Some(max), ..self }
    }
}

impl<D: IndexableNum> Measure<D> {
    /// Whether each answer is one that may be given for the node at its position.
    pub open spec fn gives<N>(self, tree: TreeView<N>, answers: Map<int, Option<D>>) -> bool {
        forall|p: int| #[trigger]
            answers.contains_key(p) ==> {
                &&& 0 <= p < tree.num_nodes()
                &&& p < tree.num_items ==> (self.item)(p, answers[p])
                &&& p >= tree.num_items ==> answers[p] is Some && (self.node)(p, answers[p]->0)
            }
    }

    /// Whether node `p` of the given level may be asked in a search up to the given distance: the
    /// nodes above it may all answer within that distance.
    pub open spec fn may_ask<N>(self, tree: TreeView<N>, limit: D, level: int, p: int) -> bool
        decreases tree.top() - level,
    {
        level >= tree.top() || {
            let q = tree.parent(level, p);
            &&& self.may_ask(tree, limit, level + 1, q)
            &&& exists|bound: D| #[trigger] (self.node)(q, bound) && within(Some(bound), limit)
        }
    }

    /// What may be asked by one measure may be asked by another that may give the same answers.
    pub proof fn lemma_may_ask_by_other<N>(
        self,
        other: Self,
        tree: TreeView<N>,
        limit: D,
        level: int,
        p: int,
    )
        requires
            tree.levels_packed(),
            tree.in_level(level, p),
            forall|q: int, bound: D|
                tree.num_items <= q < tree.num_nodes() && #[trigger] (self.node)(q, bound)
                    ==> (other.node)(q, bound),
            self.may_ask(tree, limit, level, p),
        ensures
            other.may_ask(tree, limit, level, p),
        decreases tree.top() - level,
    {
        if level < tree.top() {
            let q = tree.parent(level, p);
            tree.lemma_parent(level, p);
            tree.lemma_levels_ascend(0, level + 1);
            tree.lemma_levels_ascend(level + 1, tree.top());
            self.lemma_may_ask_by_other(other, tree, limit, level + 1, q);
            let bound = choose|bound: D| #[trigger] (self.node)(q, bound) && within(
                Some(bound),
                limit,
            );
            assert((other.node)(q, bound));
        }
    }

    /// Whether no node answers other than by `answer`.
    pub open spec fn answers_by<N>(self, tree: TreeView<N>, answer: spec_fn(int) -> Option<D>) -> bool {
        &&& forall|p: int, given: Option<D>|
            0 <= p < tree.num_items && #[trigger] (self.item)(p, given) ==> given == answer(p)
        &&& forall|p: int, bound: D|
            tree.num_items <= p < tree.num_nodes() && #[trigger] (self.node)(p, bound)
                ==> answer(p) == Some(bound)
    }

    /// Whether items have the distances `exact`, None for those left out, and the answer for any
    /// other node is a lower bound on the distances of the items below it.
    pub open spec fn is_exact<N>(self, tree: TreeView<N>, exact: spec_fn(int) -> Option<D>) -> bool {
        &&& forall|p: int, answer: Option<D>|
            0 <= p < tree.num_items && #[trigger] (self.item)(p, answer) ==> answer == exact(p)
        &&& forall|l: int, p: int, bound: D|
            0 < l < tree.num_levels() && 0 <= p < tree.num_items && #[trigger] (self.node)(
                tree.ancestor(l, p),
                bound,
            ) ==> exact(p) is Some ==> bound.rank() <= exact(p)->0.rank()
    }
}

/// The distances that two callbacks give: one for the box of a node that is not an item, one for
/// the insertion index and the box of an item.
pub open spec fn measure_by<N, D, B, I>(
    tree: TreeView<N>,
    bbox_distance: B,
    item_distance: I,
) -> Measure<D> where B: FnMut([N; 4]) -> D, I: FnMut(u32, [N; 4]) -> Option<D> {
    Measure {
        node: |p: int, bound: D| call_ensures(bbox_distance, (tree.bbox(p),), bound),
        item: |p: int, answer: Option<D>|
            call_ensures(item_distance, (tree.indices[p] as u32, tree.bbox(p)), answer),
    }
}

/// Whether two callbacks can be called for the nodes of a tree that they may be called for in a
/// search up to the given distance.
pub open spec fn can_measure_by<N, D: IndexableNum, B, I>(
    tree: TreeView<N>,
    limit: D,
    bbox_distance: B,
    item_distance: I,
) -> bool where B: FnMut([N; 4]) -> D, I: FnMut(u32, [N; 4]) -> Option<D> {
    forall|l: int, p: int| #[trigger]
        tree.in_level(l, p) && measure_by(tree, bbox_distance, item_distance).may_ask(
            tree,
            limit,
            l,
            p,
        ) ==> if l > 0 {
            call_requires(bbox_distance, (tree.bbox(p),))
        } else {
            call_requires(item_distance, (tree.indices[p] as u32, tree.bbox(p)))
        }
}

impl<N> TreeView<N> {
    /// The insertion index and the answer of each of the given items.
    pub open spec fn answers_at<D>(self, answers: Map<int, Option<D>>, items: Seq<int>) -> Seq<
        (u32, D),
    > {
        Seq::new(items.len(), |i: int| (self.indices[items[i]] as u32, answers[items[i]]->0))
    }

    /// Whether an item is below a node whose answer is over the limit.
    pub open spec fn is_pruned<D: IndexableNum>(
        self,
        answers: Map<int, Option<D>>,
        limit: D,
        p: int,
    ) -> bool {
        exists|l: int|
            {
                &&& 0 < l < self.num_levels()
                &&& #[trigger] answers.contains_key(self.ancestor(l, p))
                &&& !within(answers[self.ancestor(l, p)], limit)
            }
    }

    /// Whether a search that got the given answers may find `items`, in this order, whatever the
    /// answers were: items that answered with a distance within the limit, each once, and no more
    /// than `k` but for ties. An item that is not found was left out by its answer, or is below a
    /// node whose answer was over the limit, or `k` others were found.
    pub open spec fn may_find<D: IndexableNum>(
        self,
        options: NeighborsOptions<D>,
        answers: Map<int, Option<D>>,
        items: Seq<int>,
    ) -> bool {
        let limit = options.limit();
        &&& items.no_duplicates()
        &&& forall|i: int|
            0 <= i < items.len() ==> {
                &&& 0 <= #[trigger] items[i] < self.num_items
                &&& answers.contains_key(items[i])
                &&& within(answers[items[i]], limit)
            }
        &&& options.k is Some ==> {
            let k = options.k->0 as int;
            if options.include_tie_breakers {
                forall|i: int|
                    0 < k <= i < items.len() ==> answers[#[trigger] items[i]]->0.rank()
                        <= answers[items[k - 1]]->0.rank()
            } else {
                items.len() <= k
            }
        }
        &&& forall|p: int|
            0 <= p < self.num_items && !#[trigger] items.contains(p) ==> {
                ||| answers.contains_key(p) && !within(answers[p], limit)
                ||| self.is_pruned(answers, limit, p)
                ||| options.k is Some && items.len() >= options.k->0
            }
    }

    /// Whether `results` are what a search finds with some answers that may be given.
    pub open spec fn found<D: IndexableNum>(
        self,
        measure: Measure<D>,
        options: NeighborsOptions<D>,
        results: Seq<(u32, D)>,
    ) -> bool {
        exists|answers: Map<int, Option<D>>, items: Seq<int>|
            {
                &&& measure.gives(self, answers)
                &&& #[trigger] self.may_find(options, answers, items)
                &&& results == self.answers_at(answers, items)
            }
    }

    /// Whether `items` are nearest items, nearest first.
    ///
    /// All of them are within the limit. Without `k`, they are all the items within the limit. With
    /// `k`, they are no more than that but for ties, and an item within the limit that is not among
    /// them is no nearer than the last, or farther than the one at rank `k` where ties are asked
    /// for; all behind rank `k` then are as far as it.
    pub open spec fn nearest_items<D: IndexableNum>(
        self,
        options: NeighborsOptions<D>,
        exact: spec_fn(int) -> Option<D>,
        items: Seq<int>,
    ) -> bool {
        let limit = options.limit();
        &&& items.no_duplicates()
        &&& forall|i: int|
            0 <= i < items.len() ==> 0 <= #[trigger] items[i] < self.num_items && within(
                exact(items[i]),
                limit,
            )
        &&& forall|i: int, j: int|
            0 <= i <= j < items.len() ==> exact(#[trigger] items[i])->0.rank() <= exact(
                #[trigger] items[j],
            )->0.rank()
        &&& match options.k {
            None => forall|p: int|
                0 <= p < self.num_items && within(exact(p), limit) ==> #[trigger] items.contains(p),
            Some(k) => {
                &&& !options.include_tie_breakers ==> items.len() <= k
                &&& options.include_tie_breakers ==> forall|i: int|
                    0 < k <= i < items.len() ==> exact(#[trigger] items[i])->0.rank() == exact(
                        items[k - 1],
                    )->0.rank()
                &&& k == 0 ==> items.len() == 0
                &&& forall|p: int|
                    0 <= p < self.num_items && within(exact(p), limit) && !#[trigger] items.contains(
                        p,
                    ) && k > 0 ==> {
                        &&& items.len() >= k
                        &&& exact(items[k - 1])->0.rank() <= exact(p)->0.rank()
                        &&& options.include_tie_breakers ==> exact(items[k - 1])->0.rank() < exact(
                            p,
                        )->0.rank()
                    }
            },
        }
    }

    /// Whether item `p` is found no later than item `q`: it is nearer, or it is as near and was not
    /// inserted later.
    pub open spec fn found_no_later<D: IndexableNum>(
        self,
        exact: spec_fn(int) -> Option<D>,
        p: int,
        q: int,
    ) -> bool {
        ||| exact(p)->0.rank() < exact(q)->0.rank()
        ||| exact(p)->0.rank() == exact(q)->0.rank() && self.indices[p] <= self.indices[q]
    }

    /// Whether equally near items stand in the order of their insertion, and items that were left
    /// out come behind those that were not.
    pub open spec fn ties_by_insertion<D: IndexableNum>(
        self,
        limit: D,
        exact: spec_fn(int) -> Option<D>,
        items: Seq<int>,
    ) -> bool {
        &&& forall|i: int, j: int|
            0 <= i <= j < items.len() ==> self.found_no_later(
                exact,
                #[trigger] items[i],
                #[trigger] items[j],
            )
        &&& forall|i: int, p: int|
            0 <= i < items.len() && 0 <= p < self.num_items && within(exact(p), limit)
                && !#[trigger] items.contains(p) ==> self.found_no_later(
                exact,
                #[trigger] items[i],
                p,
            )
    }

    /// Whether `results` are the insertion indices and the distances of nearest items, nearest
    /// first, and equally near ones in the order of their insertion.
    pub open spec fn nearest<D: IndexableNum>(
        self,
        options: NeighborsOptions<D>,
        exact: spec_fn(int) -> Option<D>,
        results: Seq<(u32, D)>,
    ) -> bool {
        exists|items: Seq<int>|
            {
                &&& #[trigger] self.nearest_items(options, exact, items)
                &&& self.ties_by_insertion(options.limit(), exact, items)
                &&& results == Seq::new(
                    items.len(),
                    |i: int| (self.indices[items[i]] as u32, exact(items[i])->0),
                )
            }
    }
}

impl<N> TreeView<N> {
    /// Whether `results` are what a search finds: answers that may be given; nearest items, nearest
    /// first, wherever items have exact distances and the answers for other nodes are lower bounds
    /// on them; and what comes of the answers, wherever each node has one.
    pub open spec fn finds<D: IndexableNum>(
        self,
        measure: Measure<D>,
        options: NeighborsOptions<D>,
        results: Seq<(u32, D)>,
    ) -> bool {
        &&& self.found(measure, options, results)
        &&& forall|exact: spec_fn(int) -> Option<D>| #[trigger]
            measure.is_exact(self, exact) ==> self.nearest(options, exact, results)
        &&& self.items_are_distinct() ==> forall|answer: spec_fn(int) -> Option<D>| #[trigger]
            measure.answers_by(self, answer) ==> self.is_outcome(options, answer, results)
    }

    /// What is found by answers that another measure may give too is found by that measure.
    pub proof fn lemma_finds_by_other<D: IndexableNum>(
        self,
        measure: Measure<D>,
        other: Measure<D>,
        options: NeighborsOptions<D>,
        results: Seq<(u32, D)>,
    )
        requires
            self.levels_packed(),
            self.finds(measure, options, results),
            forall|p: int, answer: Option<D>|
                0 <= p < self.num_items && #[trigger] (measure.item)(p, answer) ==> (other.item)(
                    p,
                    answer,
                ),
            forall|p: int, bound: D|
                self.num_items <= p < self.num_nodes() && #[trigger] (measure.node)(p, bound)
                    ==> (other.node)(p, bound),
        ensures
            self.finds(other, options, results),
    {
        let (answers, items) = choose|answers: Map<int, Option<D>>, items: Seq<int>|
            {
                &&& measure.gives(self, answers)
                &&& #[trigger] self.may_find(options, answers, items)
                &&& results == self.answers_at(answers, items)
            };
        assert(other.gives(self, answers));
        assert(self.found(other, options, results));
        assert forall|exact: spec_fn(int) -> Option<D>| #[trigger]
            other.is_exact(self, exact) implies self.nearest(options, exact, results) by {
            assert forall|l: int, p: int, bound: D|
                0 < l < self.num_levels() && 0 <= p < self.num_items && #[trigger] (measure.node)(
                    self.ancestor(l, p),
                    bound,
                ) && exact(p) is Some implies bound.rank() <= exact(p)->0.rank() by {
                self.lemma_ancestor(l, p);
                self.lemma_levels_ascend(0, l);
                self.lemma_levels_ascend(l, self.top());
                assert((other.node)(self.ancestor(l, p), bound));
            }
            assert(measure.is_exact(self, exact));
        }
        assert forall|answer: spec_fn(int) -> Option<D>| #[trigger]
            other.answers_by(self, answer) && self.items_are_distinct() implies self.is_outcome(
            options,
            answer,
            results,
        ) by {
            assert(measure.answers_by(self, answer));
        }
    }

    /// Of the largest distance that options name, only what it limits a search to counts.
    pub proof fn lemma_finds_up_to<D: IndexableNum>(
        self,
        measure: Measure<D>,
        options: NeighborsOptions<D>,
        results: Seq<(u32, D)>,
    )
        requires
            self.finds(measure, options.up_to(options.limit()), results),
        ensures
            self.finds(measure, options, results),
    {
        let limited = options.up_to(options.limit());
        let (answers, items) = choose|answers: Map<int, Option<D>>, items: Seq<int>|
            {
                &&& measure.gives(self, answers)
                &&& #[trigger] self.may_find(limited, answers, items)
                &&& results == self.answers_at(answers, items)
            };
        assert(self.may_find(options, answers, items));
        assert forall|exact: spec_fn(int) -> Option<D>| #[trigger]
            measure.is_exact(self, exact) implies self.nearest(options, exact, results) by {
            assert(self.nearest(limited, exact, results));
            let items = choose|items: Seq<int>|
                {
                    &&& #[trigger] self.nearest_items(limited, exact, items)
                    &&& self.ties_by_insertion(limited.limit(), exact, items)
                    &&& results == Seq::new(
                        items.len(),
                        |i: int| (self.indices[items[i]] as u32, exact(items[i])->0),
                    )
                };
            assert(self.nearest_items(options, exact, items));
        }
    }
}

impl<N> TreeView<N> {
    /// Nearest items at the same rank are equally far.
    proof fn lemma_no_nearer_at_rank<D: IndexableNum>(
        self,
        options: NeighborsOptions<D>,
        exact: spec_fn(int) -> Option<D>,
        a: Seq<int>,
        b: Seq<int>,
        i: int,
    )
        requires
            self.nearest_items(options, exact, a),
            self.nearest_items(options, exact, b),
            0 <= i < a.len(),
            i < b.len(),
        ensures
            exact(b[i])->0.rank() <= exact(a[i])->0.rank(),
    {
        if exact(a[i])->0.rank() < exact(b[i])->0.rank() {
            let upto = a.take(i + 1);
            let before = b.take(i);
            let j = lemma_pigeonhole(upto, before);
            assert(upto[j] == a[j]);
            assert(exact(a[j])->0.rank() <= exact(a[i])->0.rank());
            if b.contains(a[j]) {
                let m = choose|m: int| 0 <= m < b.len() && b[m] == a[j];
                if m < i {
                    assert(before[m] == a[j]);
                } else {
                    assert(exact(b[i])->0.rank() <= exact(b[m])->0.rank());
                }
            } else {
                let k = options.k->0 as int;
                assert(exact(b[k - 1])->0.rank() <= exact(a[j])->0.rank());
                if i < k {
                    assert(exact(b[i])->0.rank() <= exact(b[k - 1])->0.rank());
                }
            }
        }
    }

    /// No search finds fewer nearest items than another.
    proof fn lemma_no_fewer<D: IndexableNum>(
        self,
        options: NeighborsOptions<D>,
        exact: spec_fn(int) -> Option<D>,
        a: Seq<int>,
        b: Seq<int>,
    )
        requires
            self.nearest_items(options, exact, a),
            self.nearest_items(options, exact, b),
        ensures
            b.len() <= a.len(),
    {
        if a.len() < b.len() {
            let j = lemma_pigeonhole(b, a);
            assert(within(exact(b[j]), options.limit()));
            let k = options.k->0 as int;
            assert(exact(a[k - 1])->0.rank() < exact(b[j])->0.rank());
            self.lemma_no_nearer_at_rank(options, exact, a, b, k - 1);
            if j < k {
                assert(exact(b[j])->0.rank() <= exact(b[k - 1])->0.rank());
            }
        }
    }

    /// Whatever nearest items are found, they are as many, and equally far at each rank.
    pub proof fn lemma_distances_are_unique<D: IndexableNum>(
        self,
        options: NeighborsOptions<D>,
        exact: spec_fn(int) -> Option<D>,
        a: Seq<(u32, D)>,
        b: Seq<(u32, D)>,
    )
        requires
            self.nearest(options, exact, a),
            self.nearest(options, exact, b),
        ensures
            a.len() == b.len(),
            forall|i: int|
                0 <= i < a.len() ==> (#[trigger] a[i]).1.rank() == (#[trigger] b[i]).1.rank(),
    {
        let x = choose|items: Seq<int>|
            {
                &&& #[trigger] self.nearest_items(options, exact, items)
                &&& self.ties_by_insertion(options.limit(), exact, items)
                &&& a == Seq::new(
                    items.len(),
                    |i: int| (self.indices[items[i]] as u32, exact(items[i])->0),
                )
            };
        let y = choose|items: Seq<int>|
            {
                &&& #[trigger] self.nearest_items(options, exact, items)
                &&& self.ties_by_insertion(options.limit(), exact, items)
                &&& b == Seq::new(
                    items.len(),
                    |i: int| (self.indices[items[i]] as u32, exact(items[i])->0),
                )
            };
        self.lemma_no_fewer(options, exact, x, y);
        self.lemma_no_fewer(options, exact, y, x);
        assert forall|i: int| 0 <= i < a.len() implies (#[trigger] a[i]).1.rank() == (
        #[trigger] b[i]).1.rank() by {
            self.lemma_no_nearer_at_rank(options, exact, x, y, i);
            self.lemma_no_nearer_at_rank(options, exact, y, x, i);
        }
    }

    /// Whether no two items have the same insertion index.
    pub open spec fn items_are_distinct(self) -> bool {
        forall|p: int, q: int|
            0 <= p < q < self.num_items ==> #[trigger] self.indices[p] != #[trigger] self.indices[q]
    }

    /// Nearest items agree at a rank where they agree before it.
    proof fn lemma_same_at_rank<D: IndexableNum>(
        self,
        options: NeighborsOptions<D>,
        exact: spec_fn(int) -> Option<D>,
        a: Seq<int>,
        b: Seq<int>,
        i: int,
    )
        requires
            self.nearest_items(options, exact, a),
            self.nearest_items(options, exact, b),
            self.ties_by_insertion(options.limit(), exact, b),
            0 <= i < a.len(),
            i < b.len(),
            forall|j: int| 0 <= j < i ==> #[trigger] a[j] == b[j],
        ensures
            exact(a[i])->0.rank() == exact(b[i])->0.rank(),
            self.indices[b[i]] <= self.indices[a[i]],
    {
        self.lemma_no_nearer_at_rank(options, exact, a, b, i);
        self.lemma_no_nearer_at_rank(options, exact, b, a, i);
        assert(within(exact(a[i]), options.limit()));
        if b.contains(a[i]) {
            let j = choose|j: int| 0 <= j < b.len() && b[j] == a[i];
            if j < i {
                assert(a[j] == a[i]);
            } else {
                assert(self.found_no_later(exact, b[i], b[j]));
            }
        } else {
            assert(self.found_no_later(exact, b[i], a[i]));
        }
    }

    /// Nearest items are the same up to any rank.
    proof fn lemma_same_before_rank<D: IndexableNum>(
        self,
        options: NeighborsOptions<D>,
        exact: spec_fn(int) -> Option<D>,
        a: Seq<int>,
        b: Seq<int>,
        i: int,
    )
        requires
            self.items_are_distinct(),
            self.nearest_items(options, exact, a),
            self.nearest_items(options, exact, b),
            self.ties_by_insertion(options.limit(), exact, a),
            self.ties_by_insertion(options.limit(), exact, b),
            0 <= i <= a.len(),
            i <= b.len(),
        ensures
            forall|j: int| 0 <= j < i ==> #[trigger] a[j] == b[j],
        decreases i,
    {
        if i > 0 {
            self.lemma_same_before_rank(options, exact, a, b, i - 1);
            self.lemma_same_at_rank(options, exact, a, b, i - 1);
            self.lemma_same_at_rank(options, exact, b, a, i - 1);
            let p = a[i - 1];
            let q = b[i - 1];
            assert(self.indices[p] == self.indices[q]);
            assert(0 <= p < self.num_items && 0 <= q < self.num_items);
        }
    }

    /// Nothing is left open of what is found: whatever nearest items are found, they are the same.
    pub proof fn lemma_results_are_unique<D: IndexableNum>(
        self,
        options: NeighborsOptions<D>,
        exact: spec_fn(int) -> Option<D>,
        a: Seq<(u32, D)>,
        b: Seq<(u32, D)>,
    )
        requires
            self.items_are_distinct(),
            self.nearest(options, exact, a),
            self.nearest(options, exact, b),
        ensures
            a == b,
    {
        let x = choose|items: Seq<int>|
            {
                &&& #[trigger] self.nearest_items(options, exact, items)
                &&& self.ties_by_insertion(options.limit(), exact, items)
                &&& a == Seq::new(
                    items.len(),
                    |i: int| (self.indices[items[i]] as u32, exact(items[i])->0),
                )
            };
        let y = choose|items: Seq<int>|
            {
                &&& #[trigger] self.nearest_items(options, exact, items)
                &&& self.ties_by_insertion(options.limit(), exact, items)
                &&& b == Seq::new(
                    items.len(),
                    |i: int| (self.indices[items[i]] as u32, exact(items[i])->0),
                )
            };
        self.lemma_no_fewer(options, exact, x, y);
        self.lemma_no_fewer(options, exact, y, x);
        self.lemma_same_before_rank(options, exact, x, y, x.len() as int);
        assert(x =~= y);
    }

    /// Without `k`, the results are the insertion indices and the distances of all items within the
    /// limit and of no others, and each item is found once.
    pub proof fn lemma_unbounded_search_finds_all<D: IndexableNum>(
        self,
        options: NeighborsOptions<D>,
        exact: spec_fn(int) -> Option<D>,
        results: Seq<(u32, D)>,
    )
        requires
            options.k is None,
            self.nearest(options, exact, results),
        ensures
            forall|result: (u32, D)| #[trigger]
                results.contains(result) <==> exists|p: int|
                    0 <= p < self.num_items && within(#[trigger] exact(p), options.limit())
                        && result == (self.indices[p] as u32, exact(p)->0),
            (forall|p: int, q: int|
                0 <= p < q < self.num_items ==> #[trigger] self.indices[p] as u32
                    != #[trigger] self.indices[q] as u32) ==> forall|i: int, j: int|
                0 <= i < j < results.len() ==> (#[trigger] results[i]).0 != (
                #[trigger] results[j]).0,
    {
        let limit = options.limit();
        let items = choose|items: Seq<int>|
            {
                &&& #[trigger] self.nearest_items(options, exact, items)
                &&& self.ties_by_insertion(options.limit(), exact, items)
                &&& results == Seq::new(
                    items.len(),
                    |i: int| (self.indices[items[i]] as u32, exact(items[i])->0),
                )
            };
        assert forall|result: (u32, D)| #[trigger] results.contains(result) <==> exists|p: int|
            0 <= p < self.num_items && within(#[trigger] exact(p), limit) && result == (
                self.indices[p] as u32,
                exact(p)->0,
            ) by {
            if results.contains(result) {
                let i = choose|i: int| 0 <= i < results.len() && results[i] == result;
                assert(within(exact(items[i]), limit));
            }
            if exists|p: int|
                0 <= p < self.num_items && within(#[trigger] exact(p), limit) && result == (
                    self.indices[p] as u32,
                    exact(p)->0,
                ) {
                let p = choose|p: int|
                    0 <= p < self.num_items && within(#[trigger] exact(p), limit) && result == (
                        self.indices[p] as u32,
                        exact(p)->0,
                    );
                assert(items.contains(p));
                let i = choose|i: int| 0 <= i < items.len() && items[i] == p;
                assert(results[i] == result);
            }
        }
        if forall|p: int, q: int|
            0 <= p < q < self.num_items ==> #[trigger] self.indices[p] as u32
                != #[trigger] self.indices[q] as u32 {
            assert forall|i: int, j: int| 0 <= i < j < results.len() implies (
            #[trigger] results[i]).0 != (#[trigger] results[j]).0 by {
                let p = items[i];
                let q = items[j];
                assert(p != q);
                if p < q {
                    assert(self.indices[p] as u32 != self.indices[q] as u32);
                } else {
                    assert(self.indices[q] as u32 != self.indices[p] as u32);
                }
            }
        }
    }

    /// Without `k`, searches with and without ties find the same.
    pub proof fn lemma_ties_change_nothing<D: IndexableNum>(
        self,
        measure: Measure<D>,
        options: NeighborsOptions<D>,
        include_tie_breakers: bool,
        exact: spec_fn(int) -> Option<D>,
        a: Seq<(u32, D)>,
        b: Seq<(u32, D)>,
    )
        requires
            options.k is None,
            measure.is_exact(self, exact),
            self.finds(measure, options, a),
            self.finds(measure, NeighborsOptions { include_tie_breakers, ..options }, b),
        ensures
            a.len() == b.len(),
            forall|i: int|
                0 <= i < a.len() ==> (#[trigger] a[i]).1.rank() == (#[trigger] b[i]).1.rank(),
            forall|result: (u32, D)| #[trigger] a.contains(result) <==> b.contains(result),
            self.items_are_distinct() ==> a == b,
    {
        let other = NeighborsOptions { include_tie_breakers, ..options };
        assert(self.nearest(other, exact, b));
        let items = choose|items: Seq<int>|
            {
                &&& #[trigger] self.nearest_items(other, exact, items)
                &&& self.ties_by_insertion(other.limit(), exact, items)
                &&& b == Seq::new(
                    items.len(),
                    |i: int| (self.indices[items[i]] as u32, exact(items[i])->0),
                )
            };
        self.lemma_ties_need_a_rank(other, options.include_tie_breakers, exact, items);
        assert(self.nearest_items(options, exact, items));
        assert(self.nearest(options, exact, b));
        self.lemma_distances_are_unique(options, exact, a, b);
        self.lemma_unbounded_search_finds_all(options, exact, a);
        self.lemma_unbounded_search_finds_all(options, exact, b);
        if self.items_are_distinct() {
            self.lemma_results_are_unique(options, exact, a, b);
        }
    }

    /// Without `k`, searches with and without ties find the same, whatever the bounds, as long as
    /// each node has one answer.
    pub proof fn lemma_ties_change_no_outcome<D: IndexableNum>(
        self,
        measure: Measure<D>,
        options: NeighborsOptions<D>,
        include_tie_breakers: bool,
        answer: spec_fn(int) -> Option<D>,
        a: Seq<(u32, D)>,
        b: Seq<(u32, D)>,
    )
        requires
            options.k is None,
            self.items_are_distinct(),
            measure.answers_by(self, answer),
            self.finds(measure, options, a),
            self.finds(measure, NeighborsOptions { include_tie_breakers, ..options }, b),
        ensures
            a == b,
    {
        self.lemma_outcome_without_k(options, include_tie_breakers, answer, a);
        self.lemma_outcome_is_unique(
            NeighborsOptions { include_tie_breakers, ..options },
            answer,
            a,
            b,
        );
    }

    /// The order in which items stand has no part in which are nearest: where the items of another
    /// tree are those of this one in another order, with the same distances, the same are found in
    /// both.
    pub proof fn lemma_nearest_in_any_order<D: IndexableNum>(
        self,
        other: Self,
        order: Seq<int>,
        options: NeighborsOptions<D>,
        exact: spec_fn(int) -> Option<D>,
        other_exact: spec_fn(int) -> Option<D>,
        a: Seq<(u32, D)>,
        b: Seq<(u32, D)>,
    )
        requires
            self.num_items >= 0,
            other.num_items == self.num_items,
            is_permutation(order, self.num_items as nat),
            forall|i: int|
                0 <= i < self.num_items ==> other_exact(i) == exact(#[trigger] order[i])
                    && other.indices[i] == self.indices[order[i]],
            self.nearest(options, exact, a),
            other.nearest(options, other_exact, b),
        ensures
            a.len() == b.len(),
            forall|i: int|
                0 <= i < a.len() ==> (#[trigger] a[i]).1.rank() == (#[trigger] b[i]).1.rank(),
            self.items_are_distinct() ==> a == b,
    {
        let n = self.num_items;
        let limit = options.limit();
        let y = choose|items: Seq<int>|
            {
                &&& #[trigger] other.nearest_items(options, other_exact, items)
                &&& other.ties_by_insertion(options.limit(), other_exact, items)
                &&& b == Seq::new(
                    items.len(),
                    |i: int| (other.indices[items[i]] as u32, other_exact(items[i])->0),
                )
            };
        let mapped = Seq::new(y.len(), |i: int| order[y[i]]);
        assert forall|i: int| 0 <= i < y.len() implies other_exact(y[i]) == exact(
            #[trigger] mapped[i],
        ) && 0 <= mapped[i] < n && other.indices[y[i]] == self.indices[mapped[i]] by {
            assert(0 <= y[i] < n);
            assert(other_exact(y[i]) == exact(order[y[i]]));
        }
        assert(mapped.no_duplicates()) by {
            assert forall|i: int, j: int| 0 <= i < j < mapped.len() implies mapped[i] != mapped[j] by {
                assert(0 <= y[i] < n && 0 <= y[j] < n && y[i] != y[j]);
            }
        }
        assert forall|i: int, j: int| 0 <= i <= j < mapped.len() implies exact(
            #[trigger] mapped[i],
        )->0.rank() <= exact(#[trigger] mapped[j])->0.rank() by {
            assert(other_exact(y[i])->0.rank() <= other_exact(y[j])->0.rank());
        }
        assert forall|p: int|
            0 <= p < n && within(exact(p), limit) && !#[trigger] mapped.contains(p) implies ({
            let q = choose|q: int| 0 <= q < n && order[q] == p && !y.contains(q);
            0 <= q < n && order[q] == p && !y.contains(q)
        }) by {
            let q = lemma_permutation_reaches(order, n as nat, p);
            if y.contains(q) {
                let i = choose|i: int| 0 <= i < y.len() && y[i] == q;
                assert(mapped[i] == p);
            }
            assert(0 <= q < n && order[q] == p && !y.contains(q));
        }
        assert forall|p: int|
            0 <= p < n && within(exact(p), limit) && !#[trigger] mapped.contains(p) implies {
            let k = options.k->0 as int;
            &&& options.k is Some
            &&& k > 0 ==> {
                &&& mapped.len() >= k
                &&& exact(mapped[k - 1])->0.rank() <= exact(p)->0.rank()
                &&& options.include_tie_breakers ==> exact(mapped[k - 1])->0.rank() < exact(
                    p,
                )->0.rank()
            }
        } by {
            let q = choose|q: int| 0 <= q < n && order[q] == p && !y.contains(q);
            assert(other_exact(q) == exact(order[q]));
            assert(!y.contains(q));
        }
        assert(self.nearest_items(options, exact, mapped));
        assert forall|i: int, j: int| 0 <= i <= j < mapped.len() implies self.found_no_later(
            exact,
            #[trigger] mapped[i],
            #[trigger] mapped[j],
        ) by {
            assert(other.found_no_later(other_exact, y[i], y[j]));
        }
        assert forall|i: int, p: int|
            0 <= i < mapped.len() && 0 <= p < n && within(exact(p), limit)
                && !#[trigger] mapped.contains(p) implies self.found_no_later(
            exact,
            #[trigger] mapped[i],
            p,
        ) by {
            let q = choose|q: int| 0 <= q < n && order[q] == p && !y.contains(q);
            assert(other_exact(q) == exact(order[q]));
            assert(!y.contains(q));
            assert(other.found_no_later(other_exact, y[i], q));
        }
        assert(self.ties_by_insertion(limit, exact, mapped));
        let c = Seq::new(
            mapped.len(),
            |i: int| (self.indices[mapped[i]] as u32, exact(mapped[i])->0),
        );
        assert(self.nearest(options, exact, c));
        self.lemma_distances_are_unique(options, exact, a, c);
        assert forall|i: int| 0 <= i < a.len() implies (#[trigger] a[i]).1.rank() == (
        #[trigger] b[i]).1.rank() by {
            assert(a[i].1.rank() == c[i].1.rank());
            assert(other_exact(y[i]) == exact(mapped[i]));
        }
        if self.items_are_distinct() {
            self.lemma_results_are_unique(options, exact, a, c);
            assert(b =~= c);
        }
    }

    /// Without `k`, there is no rank to be tied at: asking for ties changes nothing.
    pub proof fn lemma_ties_need_a_rank<D: IndexableNum>(
        self,
        options: NeighborsOptions<D>,
        include_tie_breakers: bool,
        exact: spec_fn(int) -> Option<D>,
        items: Seq<int>,
    )
        requires
            options.k is None,
            self.nearest_items(options, exact, items),
        ensures
            self.nearest_items(
                NeighborsOptions { include_tie_breakers, ..options },
                exact,
                items,
            ),
    {
    }

    /// Zero is a lower bound on distances that are not negative, whatever is measured.
    pub proof fn lemma_zero_is_a_safe_bound<D: IndexableNum>(
        self,
        measure: Measure<D>,
        exact: spec_fn(int) -> Option<D>,
    )
        requires
            forall|p: int, bound: D| #[trigger] (measure.node)(p, bound) ==> bound == D::spec_zero(),
            forall|p: int, answer: Option<D>|
                0 <= p < self.num_items && #[trigger] (measure.item)(p, answer) ==> answer == exact(
                    p,
                ),
            forall|p: int|
                0 <= p < self.num_items && #[trigger] exact(p) is Some ==> D::spec_zero().rank()
                    <= exact(p)->0.rank(),
        ensures
            measure.is_exact(self, exact),
    {
    }
}

} // verus!
