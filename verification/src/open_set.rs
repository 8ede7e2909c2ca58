//! The open set of a best-first search: a binary min-heap of cells, ordered by
//! their estimated total cost.

use crate::world::Position;
use vstd::multiset::Multiset;
use vstd::prelude::*;

verus! {

/// A cell in the open set.
#[derive(Debug, Clone, Copy, PartialEq, Eq, Structural)]
pub struct AStarNode {
    /// Cost from the start plus the estimate to the goal.
    pub f_cost: u128,
    pub at: Position,
}

/// Cells still to be expanded; the cheapest comes out first.
pub struct OpenSet {
    nodes: Vec<AStarNode>,
}

/// Whether the entry `child` is no cheaper than its parent.
spec fn in_order(s: Seq<AStarNode>, child: int) -> bool {
    0 < child < s.len() ==> s[(child - 1) / 2].f_cost <= s[child].f_cost
}

/// Every entry is no cheaper than its parent.
spec fn is_heap(s: Seq<AStarNode>) -> bool {
    forall|c: int| #[trigger] in_order(s, c)
}

/// The first entry of a heap is a cheapest one.
proof fn lemma_first_is_least(s: Seq<AStarNode>, k: int)
    requires
        is_heap(s),
        0 <= k < s.len(),
    ensures
        s[0].f_cost <= s[k].f_cost,
    decreases k,
{
    if k > 0 {
        assert(in_order(s, k));
        lemma_first_is_least(s, (k - 1) / 2);
    }
}

/// Exchanging two entries keeps what a sequence holds.
proof fn lemma_swap_keeps(s: Seq<AStarNode>, i: int, j: int)
    requires
        0 <= i < s.len(),
        0 <= j < s.len(),
        i != j,
    ensures
        s.update(i, s[j]).update(j, s[i]).to_multiset() == s.to_multiset(),
{
    broadcast use {vstd::seq_lib::to_multiset_update, vstd::seq_lib::group_to_multiset_ensures};

    let first = s.update(i, s[j]);
    assert(first.update(j, s[i]).to_multiset() == first.to_multiset().insert(s[i]).remove(s[j]));
    assert(first.to_multiset() == s.to_multiset().insert(s[j]).remove(s[i]));
    assert(s.contains(s[i]));
    assert(s.to_multiset().count(s[i]) > 0);
    assert(first.update(j, s[i]).to_multiset() =~= s.to_multiset());
}

impl OpenSet {
    /// The entries are arranged so that the cheapest is first.
    pub closed spec fn wf(&self) -> bool {
        is_heap(self.nodes@)
    }

    /// The nodes held.
    pub closed spec fn held(&self) -> Multiset<AStarNode> {
        self.nodes@.to_multiset()
    }

    /// An open set without nodes.
    pub fn new() -> (set: Self)
        ensures
            set.wf(),
            set.held() == Multiset::<AStarNode>::empty(),
    {
        broadcast use vstd::seq_lib::group_to_multiset_ensures;

        let set = OpenSet { nodes: Vec::with_capacity(64) };
        proof {
            assert(set.nodes@.to_multiset().len() == 0);
            assert(set.held() =~= Multiset::<AStarNode>::empty());
        }
        set
    }

    /// Adds a node.
    pub fn push(&mut self, node: AStarNode)
        requires
            old(self).wf(),
        ensures
            final(self).wf(),
            final(self).held() == old(self).held().insert(node),
    {
        broadcast use vstd::seq_lib::group_to_multiset_ensures;

        self.nodes.push(node);
        let mut i: usize = self.nodes.len() - 1;
        let ghost target = old(self).held().insert(node);
        proof {
            assert forall|c: int| c != i implies #[trigger] in_order(self.nodes@, c) by {
                assert(in_order(old(self).nodes@, c));
            }
        }
        while i > 0
            invariant_except_break
                i < self.nodes@.len(),
                self.nodes@.to_multiset() == target,
                forall|c: int| c != i ==> #[trigger] in_order(self.nodes@, c),
                forall|c: int|
                    0 < c < self.nodes@.len() && (c - 1) / 2 == i && i > 0 ==> self.nodes@[(i - 1) / 2].f_cost
                        <= (#[trigger] self.nodes@[c]).f_cost,
            ensures
                self.nodes@.to_multiset() == target,
                is_heap(self.nodes@),
            decreases i,
        {
            let parent = (i - 1) / 2;
            let child_node = self.nodes[i];
            let parent_node = self.nodes[parent];
            if parent_node.f_cost <= child_node.f_cost {
                assert(in_order(self.nodes@, i as int));
                break ;
            }
            let ghost before = self.nodes@;
            proof {
                lemma_swap_keeps(before, i as int, parent as int);
            }
            self.nodes[i] = parent_node;
            self.nodes[parent] = child_node;
            proof {
                assert forall|c: int| c != parent implies #[trigger] in_order(self.nodes@, c) by {
                    assert(c != i ==> in_order(before, c));
                    assert(in_order(before, parent as int));
                    if 0 < c < before.len() && c != i && (c - 1) / 2 == i {
                        assert(before[(i - 1) / 2].f_cost <= before[c].f_cost);
                    }
                }
                assert forall|c: int|
                    0 < c < self.nodes@.len() && (c - 1) / 2 == parent && parent > 0 implies self.nodes@[(parent - 1)
                    / 2].f_cost <= (#[trigger] self.nodes@[c]).f_cost by {
                    assert(in_order(before, parent as int));
                    assert(c != i ==> in_order(before, c));
                }
            }
            i = parent;
        }
    }

    /// Takes out a cheapest node, if there is any.
    pub fn pop(&mut self) -> (node: Option<AStarNode>)
        requires
            old(self).wf(),
        ensures
            final(self).wf(),
            match node {
                Some(node) => {
                    &&& old(self).held().count(node) > 0
                    &&& final(self).held() == old(self).held().remove(node)
                    &&& forall|other: AStarNode|
                        #[trigger] old(self).held().count(other) > 0 ==> node.f_cost <= other.f_cost
                },
                None => {
                    &&& old(self).held() == Multiset::<AStarNode>::empty()
                    &&& final(self).held() == old(self).held()
                },
            },
    {
        broadcast use vstd::seq_lib::group_to_multiset_ensures;

        let len = self.nodes.len();
        let ghost start = self.nodes@;
        if len == 0 {
            assert(self.nodes@.to_multiset().len() == 0);
            assert(self.held() =~= Multiset::<AStarNode>::empty());
            return None;
        }
        let root = self.nodes[0];
        proof {
            assert(start.contains(root));
            assert forall|other: AStarNode| #[trigger] start.to_multiset().count(other) > 0 implies root.f_cost
                <= other.f_cost by {
                assert(start.contains(other));
                let k = choose|k: int| 0 <= k < start.len() && start[k] == other;
                lemma_first_is_least(start, k);
            }
        }
        let last_idx = len - 1;
        let last = self.nodes[last_idx];
        let ghost swapped = start.update(0, last).update(last_idx as int, root);
        proof {
            if last_idx > 0 {
                lemma_swap_keeps(start, 0, last_idx as int);
            } else {
                assert(swapped =~= start);
            }
            assert(swapped.remove(last_idx as int) =~= swapped.drop_last());
            assert(swapped.drop_last().to_multiset() == start.to_multiset().remove(root));
        }
        self.nodes[0] = last;
        self.nodes.pop();
        assert(self.nodes@ =~= swapped.drop_last());
        let n = self.nodes.len();
        let ghost target = start.to_multiset().remove(root);
        proof {
            assert forall|c: int| (c - 1) / 2 != 0 implies #[trigger] in_order(self.nodes@, c) by {
                assert(in_order(start, c));
            }
        }

        let mut i: usize = 0;
        loop
            invariant_except_break
                n == self.nodes@.len(),
                i < n || n == 0,
                i == 0 || i < n,
                self.nodes@.to_multiset() == target,
                forall|c: int| (c - 1) / 2 != i ==> #[trigger] in_order(self.nodes@, c),
                forall|c: int|
                    0 < c < n && (c - 1) / 2 == i && i > 0 ==> self.nodes@[(i - 1) / 2].f_cost
                        <= (#[trigger] self.nodes@[c]).f_cost,
            ensures
                self.nodes@.to_multiset() == target,
                is_heap(self.nodes@),
            decreases n - i,
        {
            if n == 0 || i > (n - 1) / 2 || 2 * i + 1 >= n {
                assert forall|c: int| #[trigger] in_order(self.nodes@, c) by {}
                break ;
            }
            let left = 2 * i + 1;
            let mut child = left;
            if left + 1 < n && self.nodes[left + 1].f_cost < self.nodes[left].f_cost {
                child = left + 1;
            }
            let child_node = self.nodes[child];
            let here = self.nodes[i];
            if here.f_cost <= child_node.f_cost {
                assert forall|c: int| #[trigger] in_order(self.nodes@, c) by {}
                break ;
            }
            let ghost before = self.nodes@;
            proof {
                lemma_swap_keeps(before, i as int, child as int);
            }
            self.nodes[i] = child_node;
            self.nodes[child] = here;
            proof {
                assert forall|c: int| (c - 1) / 2 != child implies #[trigger] in_order(self.nodes@, c) by {
                    assert((c - 1) / 2 != i ==> in_order(before, c));
                    if c == i && i > 0 {
                        assert(before[(i - 1) / 2].f_cost <= before[child as int].f_cost);
                    }
                }
                assert forall|c: int|
                    0 < c < n && (c - 1) / 2 == child && child > 0 implies self.nodes@[(child - 1) / 2].f_cost <= (
                #[trigger] self.nodes@[c]).f_cost by {
                    assert(in_order(before, c));
                }
            }
            i = child;
        }
        Some(root)
    }
}

} // verus!
