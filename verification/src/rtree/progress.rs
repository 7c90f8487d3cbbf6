//! How a nearest neighbor search goes on.

use crate::num::IndexableNum;
use crate::rtree::layout::TreeView;
use crate::rtree::neighbors::{within, Measure};
use crate::rtree::options::NeighborsOptions;
use crate::rtree::queue::{NeighborNode, NeighborQueue};
use vstd::multiset::Multiset;
use vstd::prelude::*;

verus! {

/// How far a search has come.
pub struct Progress<D> {
    /// The answers given so far, by position.
    pub answers: Map<int, Option<D>>,
    /// The positions of the nodes in the queue.
    pub queued: Set<int>,
    /// The items found so far.
    pub items: Seq<int>,
}

impl<D: IndexableNum> Progress<D> {
    /// The queue entry of node `p`.
    pub(crate) open spec fn entry<N>(self, tree: TreeView<N>, p: int) -> NeighborNode<D> {
        NeighborNode {
            index: tree.indices[p] as usize,
            is_item: p < tree.num_items,
            dist: self.answers[p]->0,
            pos: Ghost(p),
        }
    }

    /// Whether the queue holds the queued nodes, each once.
    pub(crate) open spec fn queue_is<N>(
        self,
        tree: TreeView<N>,
        queue: Multiset<NeighborNode<D>>,
    ) -> bool {
        forall|node: NeighborNode<D>| #[trigger]
            queue.count(node) == if self.queued.contains(node.pos@) && node == self.entry(
                tree,
                node.pos@,
            ) {
                1nat
            } else {
                0nat
            }
    }

    /// Whether the search need not come back to node `q` of the given level for the items below it,
    /// or will: the node has answered and is an item, over the limit or in the queue, or it is one
    /// of those from `lo` to `hi`, which are next.
    pub(crate) open spec fn holds(self, limit: D, lo: int, hi: int, level: int, q: int) -> bool {
        ||| lo <= q < hi
        ||| self.answers.contains_key(q) && (level == 0 || !within(self.answers[q], limit)
            || self.queued.contains(q))
    }

    /// Whether an item or a node above it is held.
    pub(crate) open spec fn covers<N>(
        self,
        tree: TreeView<N>,
        limit: D,
        lo: int,
        hi: int,
        p: int,
    ) -> bool {
        exists|l: int|
            0 <= l < tree.num_levels() && #[trigger] self.holds(
                limit,
                lo,
                hi,
                l,
                tree.ancestor(l, p),
            )
    }

    /// Whether node `q` has been taken from the queue, as the parent of a node that was asked must
    /// have been.
    pub(crate) open spec fn is_opened(self, limit: D, q: int) -> bool {
        &&& self.answers.contains_key(q)
        &&& within(self.answers[q], limit)
        &&& !self.queued.contains(q)
    }

    /// What holds of a search that has the nodes from `lo` to `hi` before it.
    pub(crate) open spec fn wf<N>(
        self,
        tree: TreeView<N>,
        measure: Measure<D>,
        limit: D,
        lo: int,
        hi: int,
    ) -> bool {
        &&& measure.gives(tree, self.answers)
        &&& 0 <= lo <= hi <= tree.num_nodes()
        &&& forall|q: int| lo <= q < hi ==> !#[trigger] self.answers.contains_key(q)
        &&& forall|q: int| #[trigger]
            self.queued.contains(q) ==> self.answers.contains_key(q) && within(
                self.answers[q],
                limit,
            )
        &&& self.items.no_duplicates()
        &&& forall|i: int|
            0 <= i < self.items.len() ==> {
                &&& 0 <= #[trigger] self.items[i] < tree.num_items
                &&& self.is_opened(limit, self.items[i])
            }
        &&& forall|p: int|
            0 <= p < tree.num_items && #[trigger] self.answers.contains_key(p) ==> within(
                self.answers[p],
                limit,
            ) ==> self.queued.contains(p) || self.items.contains(p)
        &&& forall|l: int, c: int|
            l < tree.top() && #[trigger] tree.in_level(l, c) && (lo <= c < hi
                || self.answers.contains_key(c)) ==> self.is_opened(limit, tree.parent(l, c))
        &&& forall|p: int|
            0 <= p < tree.num_items ==> #[trigger] self.covers(tree, limit, lo, hi, p)
    }

    /// Whether what was found is in order, and nothing else should have been found before.
    pub(crate) open spec fn in_order<N>(
        self,
        tree: TreeView<N>,
        exact: spec_fn(int) -> Option<D>,
    ) -> bool {
        &&& forall|i: int, j: int|
            0 <= i <= j < self.items.len() ==> tree.found_no_later(
                exact,
                #[trigger] self.items[i],
                #[trigger] self.items[j],
            )
        &&& forall|i: int, p: int|
            0 <= i < self.items.len() && 0 <= p < tree.num_items && !#[trigger] self.items.contains(
                p,
            ) && exact(p) is Some ==> tree.found_no_later(exact, #[trigger] self.items[i], p)
    }

    /// The search with the answer for node `p`.
    pub open spec fn with_answer(self, limit: D, p: int, answer: Option<D>) -> Self {
        Progress {
            answers: self.answers.insert(p, answer),
            queued: if within(answer, limit) {
                self.queued.insert(p)
            } else {
                self.queued
            },
            items: self.items,
        }
    }

    /// The search after item `p` was taken from the queue.
    pub open spec fn with_item(self, p: int) -> Self {
        Progress { queued: self.queued.remove(p), items: self.items.push(p), ..self }
    }

    /// The search after node `q` was taken from the queue.
    pub open spec fn with_opened(self, q: int) -> Self {
        Progress { queued: self.queued.remove(q), ..self }
    }
}

impl<D: IndexableNum> Progress<D> {
    /// Whether queued node `p` is taken from the queue no later than queued node `q`: the nearer
    /// first, of equally near ones those that are not items, and then by index.
    pub open spec fn comes_no_later<N>(self, tree: TreeView<N>, p: int, q: int) -> bool {
        ||| self.answers[p]->0.rank() < self.answers[q]->0.rank()
        ||| {
            &&& self.answers[p]->0.rank() == self.answers[q]->0.rank()
            &&& if p < tree.num_items <==> q < tree.num_items {
                tree.indices[p] <= tree.indices[q]
            } else {
                q < tree.num_items
            }
        }
    }

    /// Whether node `p` is a first one of the queue.
    pub open spec fn is_first<N>(self, tree: TreeView<N>, p: int) -> bool {
        &&& self.queued.contains(p)
        &&& forall|q: int| #[trigger]
            self.queued.contains(q) ==> self.comes_no_later(tree, p, q)
    }

    /// The first node of the queue.
    pub open spec fn first<N>(self, tree: TreeView<N>) -> int {
        choose|p: int| self.is_first(tree, p)
    }

    /// Whether the search is over: the queue is empty, or an item is next and `k` have been found.
    /// With ties, the search goes on for items that are no farther than the one at rank `k`.
    pub open spec fn is_over<N>(self, tree: TreeView<N>, options: NeighborsOptions<D>) -> bool {
        let next = self.first(tree);
        let k = options.k->0 as int;
        ||| forall|q: int| !#[trigger] self.queued.contains(q)
        ||| {
            &&& next < tree.num_items
            &&& options.k is Some
            &&& self.items.len() >= k
            &&& options.include_tie_breakers ==> self.answers[self.items[k - 1]]->0.rank()
                < self.answers[next]->0.rank()
        }
    }

    /// The search with the answers for the nodes from `lo` to `hi`.
    pub open spec fn with_answers(
        self,
        limit: D,
        answer: spec_fn(int) -> Option<D>,
        lo: int,
        hi: int,
    ) -> Self
        decreases hi - lo,
    {
        if lo >= hi {
            self
        } else {
            self.with_answer(limit, lo, answer(lo)).with_answers(limit, answer, lo + 1, hi)
        }
    }

    /// The search with the answers for the children of node `q`, which was taken from the queue.
    pub open spec fn with_children<N>(
        self,
        tree: TreeView<N>,
        limit: D,
        answer: spec_fn(int) -> Option<D>,
        q: int,
    ) -> Self {
        let level = tree.level_of(q);
        let child = tree.first_child(level, q);
        self.with_opened(q).with_answers(limit, answer, child, tree.run_end(level - 1, child))
    }

    /// The search one node of the queue later, where nodes answer by `answer`: an item is found, and
    /// the children of any other node are asked.
    pub open spec fn step<N>(
        self,
        tree: TreeView<N>,
        options: NeighborsOptions<D>,
        answer: spec_fn(int) -> Option<D>,
    ) -> Self {
        let next = self.first(tree);
        if self.is_over(tree, options) {
            self
        } else if next < tree.num_items {
            self.with_item(next)
        } else {
            self.with_children(tree, options.limit(), answer, next)
        }
    }

    /// A search before anything was asked.
    pub open spec fn empty() -> Self {
        Progress { answers: Map::empty(), queued: Set::empty(), items: Seq::empty() }
    }

    /// The search after `n` nodes of the queue. It begins with the root.
    pub open spec fn after<N>(
        tree: TreeView<N>,
        options: NeighborsOptions<D>,
        answer: spec_fn(int) -> Option<D>,
        n: nat,
    ) -> Self
        decreases n,
    {
        if n == 0 {
            Self::empty().with_answers(
                options.limit(),
                answer,
                tree.start(tree.top()),
                tree.end(tree.top()),
            )
        } else {
            Self::after(tree, options, answer, (n - 1) as nat).step(tree, options, answer)
        }
    }

    /// Whether a search in which nodes answer by `answer` comes past here.
    pub open spec fn is_passed<N>(
        self,
        tree: TreeView<N>,
        options: NeighborsOptions<D>,
        answer: spec_fn(int) -> Option<D>,
    ) -> bool {
        exists|n: nat| self == #[trigger] Self::after(tree, options, answer, n)
    }

    /// A search that is over stays as it is.
    proof fn lemma_stays_over<N>(
        tree: TreeView<N>,
        options: NeighborsOptions<D>,
        answer: spec_fn(int) -> Option<D>,
        n: nat,
        m: nat,
    )
        requires
            Self::after(tree, options, answer, n).is_over(tree, options),
            n <= m,
        ensures
            Self::after(tree, options, answer, m) == Self::after(tree, options, answer, n),
        decreases m - n,
    {
        if n < m {
            Self::lemma_stays_over(tree, options, answer, n, (m - 1) as nat);
        }
    }

    /// A search ends in one way.
    pub(crate) proof fn lemma_one_end<N>(
        tree: TreeView<N>,
        options: NeighborsOptions<D>,
        answer: spec_fn(int) -> Option<D>,
        a: Self,
        b: Self,
    )
        requires
            a.is_passed(tree, options, answer),
            b.is_passed(tree, options, answer),
            a.is_over(tree, options),
            b.is_over(tree, options),
        ensures
            a == b,
    {
        let n = choose|n: nat| a == #[trigger] Self::after(tree, options, answer, n);
        let m = choose|m: nat| b == #[trigger] Self::after(tree, options, answer, m);
        if n <= m {
            Self::lemma_stays_over(tree, options, answer, n, m);
        } else {
            Self::lemma_stays_over(tree, options, answer, m, n);
        }
    }

    /// Where a search comes past, it comes past one step later.
    pub(crate) proof fn lemma_step_is_passed<N>(
        self,
        tree: TreeView<N>,
        options: NeighborsOptions<D>,
        answer: spec_fn(int) -> Option<D>,
    )
        requires
            self.is_passed(tree, options, answer),
        ensures
            self.step(tree, options, answer).is_passed(tree, options, answer),
    {
        let n = choose|n: nat| self == #[trigger] Self::after(tree, options, answer, n);
        assert(Self::after(tree, options, answer, n + 1) == self.step(tree, options, answer));
    }

    /// Without `k`, a search goes the same way with and without ties.
    pub(crate) proof fn lemma_same_way<N>(
        tree: TreeView<N>,
        options: NeighborsOptions<D>,
        include_tie_breakers: bool,
        answer: spec_fn(int) -> Option<D>,
        n: nat,
    )
        requires
            options.k is None,
        ensures
            Self::after(tree, options, answer, n) == Self::after(
                tree,
                NeighborsOptions { include_tie_breakers, ..options },
                answer,
                n,
            ),
        decreases n,
    {
        if n > 0 {
            Self::lemma_same_way(tree, options, include_tie_breakers, answer, (n - 1) as nat);
        }
    }

    /// The queue has one first node.
    pub(crate) proof fn lemma_one_first<N>(
        self,
        tree: TreeView<N>,
        measure: Measure<D>,
        limit: D,
        end: int,
        p: int,
    )
        requires
            tree.boxes.len() > 0,
            tree.is_packed(),
            tree.items_are_distinct(),
            self.wf(tree, measure, limit, end, end),
            self.is_first(tree, p),
        ensures
            self.first(tree) == p,
    {
        let q = self.first(tree);
        assert(self.is_first(tree, q));
        assert(self.queued.contains(p) && self.queued.contains(q));
        assert(self.comes_no_later(tree, p, q) && self.comes_no_later(tree, q, p));
        assert(self.answers.contains_key(p) && self.answers.contains_key(q));
        if p >= tree.num_items {
            let l = tree.lemma_has_level(p);
            let m = tree.lemma_has_level(q);
            tree.lemma_children(l, p);
            tree.lemma_children(m, q);
            let child = tree.first_child(l, p);
            assert(tree.indices[p] == 4 * child);
            assert(tree.indices[q] == 4 * tree.first_child(m, q));
            assert(tree.in_level(l - 1, child) && tree.in_level(m - 1, child));
            tree.lemma_one_level(l - 1, m - 1, child);
        } else if p < q {
            assert(tree.indices[p] != tree.indices[q]);
        } else if q < p {
            assert(tree.indices[q] != tree.indices[p]);
        }
    }

    /// What stands before all others in the queue is the first node.
    pub(crate) proof fn lemma_is_first<N>(
        self,
        tree: TreeView<N>,
        measure: Measure<D>,
        limit: D,
        end: int,
        p: int,
    )
        requires
            tree.indices.len() == tree.num_nodes(),
            forall|i: int|
                0 <= i < tree.indices.len() ==> 0 <= #[trigger] tree.indices[i] <= u32::MAX,
            self.wf(tree, measure, limit, end, end),
            self.queued.contains(p),
            forall|q: int| #[trigger]
                self.queued.contains(q) ==> self.entry(tree, p).no_later(self.entry(tree, q)),
        ensures
            self.is_first(tree, p),
    {
        assert(self.answers.contains_key(p));
        assert(0 <= tree.indices[p] <= u32::MAX);
        assert forall|q: int| #[trigger] self.queued.contains(q) implies self.comes_no_later(
            tree,
            p,
            q,
        ) by {
            assert(self.entry(tree, p).no_later(self.entry(tree, q)));
            assert(self.answers.contains_key(q));
            assert(0 <= tree.indices[q] <= u32::MAX);
        }
    }
}

impl<N> TreeView<N> {
    /// Whether `results` are what a search finds in which nodes answer by `answer`, whether or not
    /// the answers for nodes are lower bounds on those for the items below them.
    pub open spec fn is_outcome<D: IndexableNum>(
        self,
        options: NeighborsOptions<D>,
        answer: spec_fn(int) -> Option<D>,
        results: Seq<(u32, D)>,
    ) -> bool {
        let limited = options.up_to(options.limit());
        if options.k == Some(0usize) {
            results == Seq::<(u32, D)>::empty()
        } else {
            exists|end: Progress<D>|
                {
                    &&& #[trigger] end.is_passed(self, limited, answer)
                    &&& end.is_over(self, limited)
                    &&& results == self.answers_at(end.answers, end.items)
                }
        }
    }

    /// What a search finds depends on the answers and the options alone.
    pub proof fn lemma_outcome_is_unique<D: IndexableNum>(
        self,
        options: NeighborsOptions<D>,
        answer: spec_fn(int) -> Option<D>,
        a: Seq<(u32, D)>,
        b: Seq<(u32, D)>,
    )
        requires
            self.is_outcome(options, answer, a),
            self.is_outcome(options, answer, b),
        ensures
            a == b,
    {
        if options.k != Some(0usize) {
            let limited = options.up_to(options.limit());
            let x = choose|end: Progress<D>|
                {
                    &&& #[trigger] end.is_passed(self, limited, answer)
                    &&& end.is_over(self, limited)
                    &&& a == self.answers_at(end.answers, end.items)
                };
            let y = choose|end: Progress<D>|
                {
                    &&& #[trigger] end.is_passed(self, limited, answer)
                    &&& end.is_over(self, limited)
                    &&& b == self.answers_at(end.answers, end.items)
                };
            Progress::lemma_one_end(self, limited, answer, x, y);
        }
    }

    /// Without `k`, asking for ties changes nothing in what a search finds, whatever the answers.
    pub proof fn lemma_outcome_without_k<D: IndexableNum>(
        self,
        options: NeighborsOptions<D>,
        include_tie_breakers: bool,
        answer: spec_fn(int) -> Option<D>,
        results: Seq<(u32, D)>,
    )
        requires
            options.k is None,
            self.is_outcome(options, answer, results),
        ensures
            self.is_outcome(
                NeighborsOptions { include_tie_breakers, ..options },
                answer,
                results,
            ),
    {
        let limited = options.up_to(options.limit());
        let other = NeighborsOptions { include_tie_breakers, ..options };
        let end = choose|end: Progress<D>|
            {
                &&& #[trigger] end.is_passed(self, limited, answer)
                &&& end.is_over(self, limited)
                &&& results == self.answers_at(end.answers, end.items)
            };
        let n = choose|n: nat| end == #[trigger] Progress::after(self, limited, answer, n);
        Progress::lemma_same_way(self, limited, include_tie_breakers, answer, n);
        let tied = other.up_to(other.limit());
        assert(end == Progress::after(self, tied, answer, n));
        assert(end.is_passed(self, tied, answer));
        assert(end.is_over(self, tied));
    }
}

impl<D: IndexableNum> Progress<D> {
    /// A search starts with the root before it.
    pub(crate) proof fn lemma_starts<N>(tree: TreeView<N>, measure: Measure<D>, limit: D)
        requires
            tree.levels_packed(),
        ensures
            (Progress::<D> {
                answers: Map::empty(),
                queued: Set::empty(),
                items: Seq::empty(),
            }).wf(tree, measure, limit, tree.start(tree.top()), tree.end(tree.top())),
    {
        let s = Progress::<D> {
            answers: Map::empty(),
            queued: Set::empty(),
            items: Seq::empty(),
        };
        let top = tree.top();
        let lo = tree.start(top);
        let hi = tree.end(top);
        tree.lemma_levels_not_empty(top);
        assert forall|l: int, c: int|
            l < top && #[trigger] tree.in_level(l, c) && (lo <= c < hi || s.answers.contains_key(
                c,
            )) implies s.is_opened(limit, tree.parent(l, c)) by {
            assert(tree.in_level(top, c));
            tree.lemma_one_level(l, top, c);
        }
        assert forall|p: int| 0 <= p < tree.num_items implies #[trigger] s.covers(
            tree,
            limit,
            lo,
            hi,
            p,
        ) by {
            tree.lemma_ancestor(top, p);
            assert(s.holds(limit, lo, hi, top, tree.ancestor(top, p)));
        }
    }

    /// A search asks a node only where the nodes above it have answered within the limit.
    pub(crate) proof fn lemma_may_ask<N>(
        self,
        tree: TreeView<N>,
        measure: Measure<D>,
        limit: D,
        lo: int,
        hi: int,
        level: int,
        p: int,
    )
        requires
            tree.levels_packed(),
            self.wf(tree, measure, limit, lo, hi),
            tree.in_level(level, p),
            lo <= p < hi || self.answers.contains_key(p),
        ensures
            measure.may_ask(tree, limit, level, p),
        decreases tree.top() - level,
    {
        if level < tree.top() {
            let q = tree.parent(level, p);
            tree.lemma_parent(level, p);
            tree.lemma_levels_ascend(0, level + 1);
            assert(self.is_opened(limit, q));
            self.lemma_may_ask(tree, measure, limit, lo, hi, level + 1, q);
            assert((measure.node)(q, self.answers[q]->0));
        }
    }

    /// What an answer for the next node does to a search.
    pub(crate) proof fn lemma_with_answer<N>(
        self,
        tree: TreeView<N>,
        measure: Measure<D>,
        limit: D,
        lo: int,
        hi: int,
        answer: Option<D>,
    )
        requires
            tree.levels_packed(),
            self.wf(tree, measure, limit, lo, hi),
            lo < hi,
            lo < tree.num_items ==> (measure.item)(lo, answer),
            lo >= tree.num_items ==> answer is Some && (measure.node)(lo, answer->0),
        ensures
            self.with_answer(limit, lo, answer).wf(tree, measure, limit, lo + 1, hi),
    {
        let s = self.with_answer(limit, lo, answer);
        assert(!self.answers.contains_key(lo));
        assert forall|q: int| #[trigger] s.answers.contains_key(q) implies {
            &&& 0 <= q < tree.num_nodes()
            &&& q < tree.num_items ==> (measure.item)(q, s.answers[q])
            &&& q >= tree.num_items ==> s.answers[q] is Some && (measure.node)(q, s.answers[q]->0)
        } by {
            if q != lo {
                assert(self.answers.contains_key(q));
            }
        }
        assert forall|q: int| lo + 1 <= q < hi implies !#[trigger] s.answers.contains_key(q) by {
            assert(!self.answers.contains_key(q));
        }
        assert forall|i: int| 0 <= i < s.items.len() implies {
            &&& 0 <= #[trigger] s.items[i] < tree.num_items
            &&& s.is_opened(limit, s.items[i])
        } by {
            assert(self.is_opened(limit, self.items[i]));
        }
        assert forall|p: int|
            0 <= p < tree.num_items && #[trigger] s.answers.contains_key(p) && within(
                s.answers[p],
                limit,
            ) implies s.queued.contains(p) || s.items.contains(p) by {
            if p != lo {
                assert(self.answers.contains_key(p));
            }
        }
        assert forall|l: int, c: int|
            l < tree.top() && #[trigger] tree.in_level(l, c) && (lo + 1 <= c < hi
                || s.answers.contains_key(c)) implies s.is_opened(limit, tree.parent(l, c)) by {
            assert(self.is_opened(limit, tree.parent(l, c)));
        }
        assert forall|p: int| 0 <= p < tree.num_items implies #[trigger] s.covers(
            tree,
            limit,
            lo + 1,
            hi,
            p,
        ) by {
            assert(self.covers(tree, limit, lo, hi, p));
            let l = choose|l: int|
                0 <= l < tree.num_levels() && #[trigger] self.holds(
                    limit,
                    lo,
                    hi,
                    l,
                    tree.ancestor(l, p),
                );
            assert(s.holds(limit, lo + 1, hi, l, tree.ancestor(l, p)));
        }
    }

    /// What an answer for a node does to the queue.
    pub(crate) proof fn lemma_queue_with_answer<N>(
        self,
        tree: TreeView<N>,
        measure: Measure<D>,
        limit: D,
        lo: int,
        hi: int,
        answer: Option<D>,
        queue: Multiset<NeighborNode<D>>,
    )
        requires
            self.wf(tree, measure, limit, lo, hi),
            lo < hi,
            self.queue_is(tree, queue),
        ensures
            within(answer, limit) ==> self.with_answer(limit, lo, answer).queue_is(
                tree,
                queue.insert(self.with_answer(limit, lo, answer).entry(tree, lo)),
            ),
            !within(answer, limit) ==> self.with_answer(limit, lo, answer).queue_is(tree, queue),
    {
        let s = self.with_answer(limit, lo, answer);
        assert(!self.answers.contains_key(lo));
        assert(!self.queued.contains(lo));
        let after = if within(answer, limit) {
            queue.insert(s.entry(tree, lo))
        } else {
            queue
        };
        assert forall|node: NeighborNode<D>| #[trigger]
            after.count(node) == if s.queued.contains(node.pos@) && node == s.entry(
                tree,
                node.pos@,
            ) {
                1nat
            } else {
                0nat
            } by {
            assert(queue.count(node) == if self.queued.contains(node.pos@) && node == self.entry(
                tree,
                node.pos@,
            ) {
                1nat
            } else {
                0nat
            });
        }
    }

    /// What taking a node from the queue leaves in it.
    pub(crate) proof fn lemma_queue_with_opened<N>(
        self,
        tree: TreeView<N>,
        q: int,
        queue: Multiset<NeighborNode<D>>,
    )
        requires
            self.queue_is(tree, queue),
            self.queued.contains(q),
        ensures
            self.with_opened(q).queue_is(tree, queue.remove(self.entry(tree, q))),
    {
        let s = self.with_opened(q);
        let after = queue.remove(self.entry(tree, q));
        assert forall|node: NeighborNode<D>| #[trigger]
            after.count(node) == if s.queued.contains(node.pos@) && node == s.entry(
                tree,
                node.pos@,
            ) {
                1nat
            } else {
                0nat
            } by {
            assert(queue.count(node) == if self.queued.contains(node.pos@) && node == self.entry(
                tree,
                node.pos@,
            ) {
                1nat
            } else {
                0nat
            });
        }
    }

    /// What an answer for a node does to the results: nothing.
    pub(crate) proof fn lemma_tallies_with_answer<N>(
        self,
        tree: TreeView<N>,
        measure: Measure<D>,
        options: NeighborsOptions<D>,
        lo: int,
        hi: int,
        answer: Option<D>,
        results: Seq<(u32, D)>,
        kth_distance: Option<D>,
    )
        requires
            self.wf(tree, measure, options.limit(), lo, hi),
            lo < hi,
            self.tallies(tree, options, results, kth_distance),
        ensures
            self.with_answer(options.limit(), lo, answer).tallies(
                tree,
                options,
                results,
                kth_distance,
            ),
    {
        let limit = options.limit();
        let s = self.with_answer(limit, lo, answer);
        assert(!self.answers.contains_key(lo));
        assert forall|i: int| 0 <= i < self.items.len() implies s.answers[#[trigger] self.items[i]]
            == self.answers[self.items[i]] by {
            assert(self.is_opened(limit, self.items[i]));
        }
        assert(results =~= tree.answers_at(s.answers, s.items));
    }

    /// No more nodes have answered than there are.
    pub(crate) proof fn lemma_answers_counted<N>(
        self,
        tree: TreeView<N>,
        measure: Measure<D>,
        limit: D,
        lo: int,
        hi: int,
    )
        requires
            self.wf(tree, measure, limit, lo, hi),
        ensures
            self.answers.dom().finite(),
            self.answers.dom().len() <= tree.num_nodes(),
            self.answers.dom().len() + (hi - lo) <= tree.num_nodes(),
    {
        let asked = self.answers.dom();
        let next = vstd::set_lib::set_int_range(lo, hi);
        let all = vstd::set_lib::set_int_range(0, tree.num_nodes());
        vstd::set_lib::lemma_int_range(0, tree.num_nodes());
        vstd::set_lib::lemma_int_range(lo, hi);
        assert(asked.subset_of(all)) by {
            assert forall|q: int| #[trigger] asked.contains(q) implies all.contains(q) by {
                assert(self.answers.contains_key(q));
            }
        }
        vstd::set_lib::lemma_len_subset(asked, all);
        assert(asked.disjoint(next)) by {
            assert forall|q: int| asked.contains(q) implies !next.contains(q) by {
                assert(self.answers.contains_key(q));
            }
        }
        vstd::set_lib::lemma_set_disjoint_lens(asked, next);
        vstd::set_lib::lemma_len_subset(asked + next, all);
    }

    /// What taking an item from the queue does to a search.
    pub(crate) proof fn lemma_with_item<N>(
        self,
        tree: TreeView<N>,
        measure: Measure<D>,
        limit: D,
        end: int,
        x: int,
    )
        requires
            tree.levels_packed(),
            self.wf(tree, measure, limit, end, end),
            self.queued.contains(x),
            0 <= x < tree.num_items,
        ensures
            self.with_item(x).wf(tree, measure, limit, end, end),
    {
        let s = self.with_item(x);
        assert forall|i: int| 0 <= i < s.items.len() implies {
            &&& 0 <= #[trigger] s.items[i] < tree.num_items
            &&& s.is_opened(limit, s.items[i])
        } by {
            if i < self.items.len() {
                assert(self.is_opened(limit, self.items[i]));
            }
        }
        assert(s.items.no_duplicates()) by {
            assert forall|i: int, j: int| 0 <= i < j < s.items.len() implies s.items[i]
                != s.items[j] by {
                assert(self.is_opened(limit, self.items[i]));
            }
        }
        assert forall|p: int|
            0 <= p < tree.num_items && #[trigger] s.answers.contains_key(p) && within(
                s.answers[p],
                limit,
            ) implies s.queued.contains(p) || s.items.contains(p) by {
            assert(self.answers.contains_key(p));
            if p == x {
                assert(s.items[self.items.len() as int] == p);
            } else if self.items.contains(p) {
                let i = choose|i: int| 0 <= i < self.items.len() && self.items[i] == p;
                assert(s.items[i] == p);
            }
        }
        assert forall|l: int, c: int|
            l < tree.top() && #[trigger] tree.in_level(l, c) && s.answers.contains_key(
                c,
            ) implies s.is_opened(limit, tree.parent(l, c)) by {
            assert(self.is_opened(limit, tree.parent(l, c)));
        }
        assert forall|p: int| 0 <= p < tree.num_items implies #[trigger] s.covers(
            tree,
            limit,
            end,
            end,
            p,
        ) by {
            assert(self.covers(tree, limit, end, end, p));
            let l = choose|l: int|
                0 <= l < tree.num_levels() && #[trigger] self.holds(
                    limit,
                    end,
                    end,
                    l,
                    tree.ancestor(l, p),
                );
            tree.lemma_ancestor(l, p);
            if l > 0 {
                tree.lemma_levels_ascend(0, l);
            }
            assert(s.holds(limit, end, end, l, tree.ancestor(l, p)));
        }
    }

    /// What taking any other node from the queue does to a search: its children are next.
    pub(crate) proof fn lemma_with_opened<N>(
        self,
        tree: TreeView<N>,
        measure: Measure<D>,
        limit: D,
        end: int,
        level: int,
        q: int,
    )
        requires
            tree.levels_packed(),
            self.wf(tree, measure, limit, end, end),
            self.queued.contains(q),
            0 < level,
            tree.in_level(level, q),
        ensures
            self.with_opened(q).wf(
                tree,
                measure,
                limit,
                tree.first_child(level, q),
                tree.run_end(level - 1, tree.first_child(level, q)),
            ),
            tree.in_level(level - 1, tree.first_child(level, q)),
    {
        let s = self.with_opened(q);
        let lo = tree.first_child(level, q);
        let hi = tree.run_end(level - 1, lo);
        tree.lemma_children(level, q);
        tree.lemma_levels_ascend(level - 1, tree.top());
        tree.lemma_levels_ascend(0, level);
        tree.lemma_levels_not_empty(level - 1);
        assert(tree.in_level(level - 1, lo));
        assert forall|c: int| lo <= c < hi implies !#[trigger] s.answers.contains_key(c) by {
            assert(tree.in_level(level - 1, c));
            if self.answers.contains_key(c) {
                assert(self.is_opened(limit, tree.parent(level - 1, c)));
            }
        }
        assert forall|i: int| 0 <= i < s.items.len() implies {
            &&& 0 <= #[trigger] s.items[i] < tree.num_items
            &&& s.is_opened(limit, s.items[i])
        } by {
            assert(self.is_opened(limit, self.items[i]));
        }
        assert forall|l: int, c: int|
            l < tree.top() && #[trigger] tree.in_level(l, c) && (lo <= c < hi
                || s.answers.contains_key(c)) implies s.is_opened(limit, tree.parent(l, c)) by {
            if lo <= c < hi {
                assert(tree.in_level(level - 1, c));
                tree.lemma_one_level(l, level - 1, c);
            } else {
                assert(self.is_opened(limit, tree.parent(l, c)));
            }
        }
        assert forall|p: int| 0 <= p < tree.num_items implies #[trigger] s.covers(
            tree,
            limit,
            lo,
            hi,
            p,
        ) by {
            assert(self.covers(tree, limit, end, end, p));
            let l = choose|l: int|
                0 <= l < tree.num_levels() && #[trigger] self.holds(
                    limit,
                    end,
                    end,
                    l,
                    tree.ancestor(l, p),
                );
            tree.lemma_ancestor(l, p);
            if tree.ancestor(l, p) == q {
                tree.lemma_one_level(l, level, q);
                tree.lemma_ancestor(l - 1, p);
                tree.lemma_parent(l - 1, tree.ancestor(l - 1, p));
                assert(s.holds(limit, lo, hi, l - 1, tree.ancestor(l - 1, p)));
            } else {
                assert(s.holds(limit, lo, hi, l, tree.ancestor(l, p)));
            }
        }
    }

    /// No item that was not found yet is nearer than the nearest node of the queue, or within the
    /// limit where the queue is empty.
    pub(crate) proof fn lemma_front<N>(
        self,
        tree: TreeView<N>,
        measure: Measure<D>,
        limit: D,
        end: int,
        exact: spec_fn(int) -> Option<D>,
        p: int,
    ) -> (q: Option<int>)
        requires
            tree.levels_packed(),
            self.wf(tree, measure, limit, end, end),
            measure.is_exact(tree, exact),
            0 <= p < tree.num_items,
            !self.items.contains(p),
            exact(p) is Some,
        ensures
            match q {
                Some(q) => {
                    &&& self.queued.contains(q)
                    &&& self.answers[q]->0.rank() <= exact(p)->0.rank()
                    &&& q == p && self.answers[p] == exact(p) || q >= tree.num_items
                },
                None => limit.rank() < exact(p)->0.rank(),
            },
    {
        assert(self.covers(tree, limit, end, end, p));
        let l = choose|l: int|
            0 <= l < tree.num_levels() && #[trigger] self.holds(
                limit,
                end,
                end,
                l,
                tree.ancestor(l, p),
            );
        tree.lemma_ancestor(l, p);
        let q = tree.ancestor(l, p);
        assert(self.answers.contains_key(q));
        if l > 0 {
            tree.lemma_levels_ascend(0, l);
            assert((measure.node)(tree.ancestor(l, p), self.answers[q]->0));
        } else {
            assert((measure.item)(p, self.answers[p]));
        }
        if self.queued.contains(q) {
            Some(q)
        } else {
            None
        }
    }

    /// Taking the nearest node keeps what was found in order, where that node is an item.
    pub(crate) proof fn lemma_item_in_order<N>(
        self,
        tree: TreeView<N>,
        measure: Measure<D>,
        limit: D,
        end: int,
        exact: spec_fn(int) -> Option<D>,
        x: int,
    )
        requires
            tree.levels_packed(),
            self.wf(tree, measure, limit, end, end),
            measure.is_exact(tree, exact),
            self.in_order(tree, exact),
            self.queued.contains(x),
            0 <= x < tree.num_items,
            forall|q: int| #[trigger]
                self.queued.contains(q) ==> self.entry(tree, x).no_later(self.entry(tree, q)),
            tree.indices.len() == tree.num_nodes(),
            forall|i: int|
                0 <= i < tree.indices.len() ==> 0 <= #[trigger] tree.indices[i] <= u32::MAX,
        ensures
            self.with_item(x).in_order(tree, exact),
    {
        let s = self.with_item(x);
        assert(self.answers.contains_key(x));
        assert((measure.item)(x, self.answers[x]));
        assert(!self.items.contains(x)) by {
            if self.items.contains(x) {
                let i = choose|i: int| 0 <= i < self.items.len() && self.items[i] == x;
                assert(self.is_opened(limit, self.items[i]));
            }
        }
        assert forall|p: int|
            0 <= p < tree.num_items && !#[trigger] s.items.contains(p) implies !self.items.contains(
            p,
        ) by {
            if self.items.contains(p) {
                let i = choose|i: int| 0 <= i < self.items.len() && self.items[i] == p;
                assert(s.items[i] == p);
            }
        }
        assert forall|i: int, p: int|
            0 <= i < s.items.len() && 0 <= p < tree.num_items && !#[trigger] s.items.contains(p)
                && exact(p) is Some implies tree.found_no_later(
            exact,
            #[trigger] s.items[i],
            p,
        ) by {
            if i < self.items.len() {
                assert(tree.found_no_later(exact, self.items[i], p));
            } else {
                let q = self.lemma_front(tree, measure, limit, end, exact, p);
                tree.lemma_levels_ascend(0, tree.top());
                assert(0 <= tree.indices[x] <= u32::MAX);
                assert(0 <= tree.indices[p] <= u32::MAX);
                if q is Some {
                    assert(self.entry(tree, x).no_later(self.entry(tree, q->0)));
                }
            }
        }
        assert forall|i: int, j: int| 0 <= i <= j < s.items.len() implies tree.found_no_later(
            exact,
            #[trigger] s.items[i],
            #[trigger] s.items[j],
        ) by {
            if j < self.items.len() {
                assert(tree.found_no_later(exact, self.items[i], self.items[j]));
            } else if i < self.items.len() {
                assert(tree.found_no_later(exact, self.items[i], x));
            }
        }
    }
}

impl<D: IndexableNum> Progress<D> {
    /// Whether `results` and `kth_distance` are those of the items found so far, and these are no
    /// more than the options allow.
    pub(crate) open spec fn tallies<N>(
        self,
        tree: TreeView<N>,
        options: NeighborsOptions<D>,
        results: Seq<(u32, D)>,
        kth_distance: Option<D>,
    ) -> bool {
        &&& results == tree.answers_at(self.answers, self.items)
        &&& options.k is None ==> kth_distance is None
        &&& options.k is Some ==> {
            let k = options.k->0 as int;
            &&& k > 0
            &&& !options.include_tie_breakers ==> self.items.len() <= k
            &&& options.include_tie_breakers ==> {
                &&& kth_distance == if self.items.len() >= k {
                    Some(self.answers[self.items[k - 1]]->0)
                } else {
                    None
                }
                &&& forall|i: int|
                    k <= i < self.items.len() ==> self.answers[#[trigger] self.items[i]]->0.rank()
                        <= self.answers[self.items[k - 1]]->0.rank()
            }
        }
    }

    /// Whether nothing that is left can be among the results.
    pub(crate) open spec fn is_done(self, options: NeighborsOptions<D>) -> bool {
        ||| forall|q: int| !#[trigger] self.queued.contains(q)
        ||| {
            let k = options.k->0 as int;
            &&& options.k is Some
            &&& k <= self.items.len()
            &&& options.include_tie_breakers ==> forall|q: int| #[trigger]
                self.queued.contains(q) ==> self.answers[self.items[k - 1]]->0.rank()
                    < self.answers[q]->0.rank()
        }
    }

    /// What a search has found when it is done, whatever the answers were.
    pub(crate) proof fn lemma_found<N>(
        self,
        tree: TreeView<N>,
        measure: Measure<D>,
        options: NeighborsOptions<D>,
        end: int,
        results: Seq<(u32, D)>,
        kth_distance: Option<D>,
    )
        requires
            tree.levels_packed(),
            self.wf(tree, measure, options.limit(), end, end),
            self.tallies(tree, options, results, kth_distance),
            self.is_done(options),
        ensures
            tree.found(measure, options, results),
    {
        let limit = options.limit();
        assert forall|i: int| 0 <= i < self.items.len() implies {
            &&& 0 <= #[trigger] self.items[i] < tree.num_items
            &&& self.answers.contains_key(self.items[i])
            &&& within(self.answers[self.items[i]], limit)
        } by {
            assert(self.is_opened(limit, self.items[i]));
        }
        assert forall|p: int| 0 <= p < tree.num_items && !#[trigger] self.items.contains(p) implies {
            ||| self.answers.contains_key(p) && !within(self.answers[p], limit)
            ||| tree.is_pruned(self.answers, limit, p)
            ||| options.k is Some && self.items.len() >= options.k->0
        } by {
            assert(self.covers(tree, limit, end, end, p));
            let l = choose|l: int|
                0 <= l < tree.num_levels() && #[trigger] self.holds(
                    limit,
                    end,
                    end,
                    l,
                    tree.ancestor(l, p),
                );
            assert(self.answers.contains_key(tree.ancestor(l, p)));
        }
        assert(tree.may_find(options, self.answers, self.items));
    }

    /// What a search has found when it is done, where the distances are exact.
    pub(crate) proof fn lemma_nearest<N>(
        self,
        tree: TreeView<N>,
        measure: Measure<D>,
        options: NeighborsOptions<D>,
        end: int,
        results: Seq<(u32, D)>,
        kth_distance: Option<D>,
        exact: spec_fn(int) -> Option<D>,
    )
        requires
            tree.levels_packed(),
            self.wf(tree, measure, options.limit(), end, end),
            self.tallies(tree, options, results, kth_distance),
            self.is_done(options),
            measure.is_exact(tree, exact),
            self.in_order(tree, exact),
        ensures
            tree.nearest(options, exact, results),
    {
        let limit = options.limit();
        assert forall|i: int| 0 <= i < self.items.len() implies 0 <= #[trigger] self.items[i]
            < tree.num_items && within(exact(self.items[i]), limit) && self.answers[self.items[i]]
            == exact(self.items[i]) by {
            assert(self.is_opened(limit, self.items[i]));
            assert(self.answers.contains_key(self.items[i]));
            assert((measure.item)(self.items[i], self.answers[self.items[i]]));
        }
        assert forall|p: int|
            0 <= p < tree.num_items && within(exact(p), limit) && !#[trigger] self.items.contains(
                p,
            ) implies {
            let k = options.k->0 as int;
            &&& options.k is Some
            &&& self.items.len() >= k
            &&& exact(self.items[k - 1])->0.rank() <= exact(p)->0.rank()
            &&& options.include_tie_breakers ==> exact(self.items[k - 1])->0.rank() < exact(
                p,
            )->0.rank()
        } by {
            let q = self.lemma_front(tree, measure, limit, end, exact, p);
            assert(self.queued.contains(q->0));
            assert(tree.found_no_later(exact, self.items[options.k->0 - 1], p));
        }
        assert forall|i: int, j: int| 0 <= i <= j < self.items.len() implies exact(
            #[trigger] self.items[i],
        )->0.rank() <= exact(#[trigger] self.items[j])->0.rank() by {
            assert(tree.found_no_later(exact, self.items[i], self.items[j]));
        }
        assert(tree.nearest_items(options, exact, self.items));
        assert(tree.ties_by_insertion(limit, exact, self.items));
        assert(results =~= Seq::new(
            self.items.len(),
            |i: int| (tree.indices[self.items[i]] as u32, exact(self.items[i])->0),
        ));
    }
}

/// Moves items from the queue to the results for as long as an item is next, and says whether the
/// search is over.
pub(crate) fn take_items<N, D: IndexableNum>(
    queue: &mut NeighborQueue<D>,
    results: &mut Vec<(u32, D)>,
    kth_distance: &mut Option<D>,
    options: NeighborsOptions<D>,
    Ghost(tree): Ghost<TreeView<N>>,
    Ghost(measure): Ghost<Measure<D>>,
    Ghost(end): Ghost<int>,
    Ghost(start): Ghost<Progress<D>>,
) -> (taken: (bool, Ghost<Progress<D>>))
    requires
        tree.boxes.len() > 0,
        tree.is_packed(),
        forall|i: int| 0 <= i < tree.indices.len() ==> 0 <= #[trigger] tree.indices[i] <= u32::MAX,
        old(queue).wf(),
        start.queue_is(tree, old(queue)@),
        start.wf(tree, measure, options.limit(), end, end),
        start.tallies(tree, options, old(results)@, *old(kth_distance)),
        forall|exact: spec_fn(int) -> Option<D>| #[trigger]
            measure.is_exact(tree, exact) ==> start.in_order(tree, exact),
        tree.items_are_distinct() ==> forall|answer: spec_fn(int) -> Option<D>| #[trigger]
            measure.answers_by(tree, answer) ==> start.is_passed(
                tree,
                options.up_to(options.limit()),
                answer,
            ),
    ensures
        final(queue).wf(),
        taken.1@.queue_is(tree, final(queue)@),
        taken.1@.wf(tree, measure, options.limit(), end, end),
        taken.1@.tallies(tree, options, final(results)@, *final(kth_distance)),
        taken.1@.answers == start.answers,
        forall|exact: spec_fn(int) -> Option<D>| #[trigger]
            measure.is_exact(tree, exact) ==> taken.1@.in_order(tree, exact),
        tree.items_are_distinct() ==> forall|answer: spec_fn(int) -> Option<D>| #[trigger]
            measure.answers_by(tree, answer) ==> taken.1@.is_passed(
                tree,
                options.up_to(options.limit()),
                answer,
            ),
        taken.0 && tree.items_are_distinct() ==> taken.1@.is_over(
            tree,
            options.up_to(options.limit()),
        ),
        taken.0 ==> taken.1@.is_done(options),
        !taken.0 && final(queue).first() is Some ==> !final(queue).first()->0.is_item,
{
    let ghost mut s = start;
    let ghost limit = options.limit();
    let ghost limited = options.up_to(limit);
    loop
        invariant
            tree.boxes.len() > 0,
            tree.is_packed(),
            forall|i: int|
                0 <= i < tree.indices.len() ==> 0 <= #[trigger] tree.indices[i] <= u32::MAX,
            limit == options.limit(),
            limited == options.up_to(limit),
            queue.wf(),
            s.queue_is(tree, queue@),
            s.wf(tree, measure, limit, end, end),
            s.tallies(tree, options, results@, *kth_distance),
            s.answers == start.answers,
            forall|exact: spec_fn(int) -> Option<D>| #[trigger]
                measure.is_exact(tree, exact) ==> s.in_order(tree, exact),
            tree.items_are_distinct() ==> forall|answer: spec_fn(int) -> Option<D>| #[trigger]
                measure.answers_by(tree, answer) ==> s.is_passed(tree, limited, answer),
        decreases queue@.len(),
    {
        let next = queue.peek();
        if next.is_none() {
            return (false, Ghost(s));
        }
        let node = next.unwrap();
        if !node.is_item {
            return (false, Ghost(s));
        }
        let ghost x = node.pos@;
        proof {
            assert(queue@.count(node) > 0);
            assert(s.queued.contains(x) && node == s.entry(tree, x));
            assert(s.answers.contains_key(x));
            assert(0 <= tree.indices[x] <= u32::MAX);
            assert forall|q: int| #[trigger] s.queued.contains(q) implies node.no_later(
                s.entry(tree, q),
            ) by {
                let other = s.entry(tree, q);
                assert(queue@.count(other) == 1);
                assert(queue@.contains(other));
            }
            s.lemma_is_first(tree, measure, limit, end, x);
            if tree.items_are_distinct() {
                s.lemma_one_first(tree, measure, limit, end, x);
            }
        }
        match options.k {
            Some(k) => {
                if !options.include_tie_breakers {
                    // If we've reached k items and not including tie breakers, we should stop
                    if results.len() == k {
                        return (true, Ghost(s));
                    }
                } else {
                    // If including tie breakers and we're about to add the k-th item, record its
                    // distance
                    if kth_distance.is_none() && results.len() + 1 == k {
                        *kth_distance = Some(node.dist);
                    }
                }
            },
            None => {},
        }
        // If we have recorded k-th distance and current distance exceeds it, stop
        if options.include_tie_breakers {
            match *kth_distance {
                Some(kth) => {
                    if kth.is_less(node.dist) {
                        return (true, Ghost(s));
                    }
                },
                None => {},
            }
        }
        let ghost queue0 = queue@;
        let ghost s0 = s;
        queue.pop();
        results.push((node.index as u32, node.dist));
        proof {
            s = s0.with_item(x);
            s0.lemma_with_item(tree, measure, limit, end, x);
            assert forall|exact: spec_fn(int) -> Option<D>| #[trigger]
                measure.is_exact(tree, exact) implies s.in_order(tree, exact) by {
                s0.lemma_item_in_order(tree, measure, limit, end, exact, x);
            }
            assert forall|answer: spec_fn(int) -> Option<D>| #[trigger]
                measure.answers_by(tree, answer) && tree.items_are_distinct() implies s.is_passed(
                tree,
                limited,
                answer,
            ) by {
                s0.lemma_step_is_passed(tree, limited, answer);
                assert(s0.queued.contains(x));
                assert(!s0.is_over(tree, limited));
            }
            s0.lemma_queue_with_opened(tree, x, queue0);
            assert(results@ =~= tree.answers_at(s.answers, s.items));
        }
    }
}

} // verus!
