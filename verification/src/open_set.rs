//! The search frontier: a binary min-heap of cells ordered by f-score.

use vstd::multiset::Multiset;
use vstd::prelude::*;

verus! {

/// A frontier entry: a cell and the estimated cost of a route through it.
#[derive(Clone, Copy, Debug)]
pub struct Node {
    pub pos: (usize, usize),
    pub f_score: u128,
}

/// Whether every entry of `nodes` but the root has an f-score no lower than
/// its parent's.
pub open spec fn heap_ordered(nodes: Seq<Node>) -> bool {
    forall|k: int|
        1 <= k < nodes.len() ==> nodes[(k - 1) / 2].f_score <= (#[trigger] nodes[k]).f_score
}

/// In an ordered heap no entry has a lower f-score than the root.
pub proof fn lemma_root_is_least(nodes: Seq<Node>, k: int)
    requires
        heap_ordered(nodes),
        0 <= k < nodes.len(),
    ensures
        nodes[0].f_score <= nodes[k].f_score,
    decreases k,
{
    if k > 0 {
        lemma_root_is_least(nodes, (k - 1) / 2);
    }
}

/// Exchanging two entries of a sequence keeps what the sequence holds.
pub proof fn lemma_swap_keeps_entries(nodes: Seq<Node>, i: int, j: int)
    requires
        0 <= i < nodes.len(),
        0 <= j < nodes.len(),
    ensures
        nodes.update(i, nodes[j]).update(j, nodes[i]).to_multiset() == nodes.to_multiset(),
{
    let first = nodes.update(i, nodes[j]);
    vstd::seq_lib::to_multiset_update(nodes, i, nodes[j]);
    vstd::seq_lib::to_multiset_update(first, j, nodes[i]);
    let before = nodes.to_multiset();
    let after = first.update(j, nodes[i]).to_multiset();
    assert(before.count(nodes[i]) > 0) by {
        vstd::seq_lib::to_multiset_contains(nodes, nodes[i]);
        assert(nodes.contains(nodes[i]));
    }
    assert(before.count(nodes[j]) > 0) by {
        vstd::seq_lib::to_multiset_contains(nodes, nodes[j]);
        assert(nodes.contains(nodes[j]));
    }
    assert(after =~= before);
}

/// How often a multiset holds each entry once `x` has been added.
pub proof fn lemma_count_after_insert(m: Multiset<Node>, x: Node)
    ensures
        forall|n: Node| #[trigger]
            m.insert(x).count(n) == m.count(n) + if n == x {
                1nat
            } else {
                0nat
            },
{
    broadcast use vstd::multiset::group_multiset_axioms;

}

/// How often a multiset holds each entry once one `x` has been taken out.
pub proof fn lemma_count_after_remove(m: Multiset<Node>, x: Node)
    requires
        m.count(x) > 0,
    ensures
        forall|n: Node| #[trigger]
            m.remove(x).count(n) == m.count(n) - if n == x {
                1nat
            } else {
                0nat
            },
{
    broadcast use vstd::multiset::group_multiset_axioms;

}

/// A multiset without entries holds no entry.
pub proof fn lemma_count_when_empty(m: Multiset<Node>)
    requires
        m.len() == 0,
    ensures
        forall|n: Node| #[trigger] m.count(n) == 0,
{
    broadcast use vstd::multiset::group_multiset_axioms;

}

/// Min-priority queue of frontier entries, lowest f-score first.
pub struct OpenSet {
    pub nodes: Vec<Node>,
}

impl View for OpenSet {
    type V = Multiset<Node>;

    open spec fn view(&self) -> Multiset<Node> {
        self.nodes@.to_multiset()
    }
}

impl OpenSet {
    /// The entries are arranged as a binary heap.
    pub open spec fn wf(self) -> bool {
        heap_ordered(self.nodes@)
    }

    /// An empty queue.
    pub fn new() -> (open: OpenSet)
        ensures
            open.wf(),
            open@ == Multiset::<Node>::empty(),
            open@.len() == 0,
    {
        let open = OpenSet { nodes: Vec::new() };
        proof {
            vstd::seq_lib::to_multiset_len(open.nodes@);
            assert(open@ =~= Multiset::<Node>::empty()) by {
                assert forall|n: Node| open@.count(n) == 0 by {
                    vstd::seq_lib::to_multiset_contains(open.nodes@, n);
                }
            }
        }
        open
    }

    /// Number of entries in the queue.
    pub fn len(&self) -> (count: usize)
        ensures
            count == self@.len(),
    {
        proof {
            vstd::seq_lib::to_multiset_len(self.nodes@);
        }
        self.nodes.len()
    }

    fn swap(&mut self, i: usize, j: usize)
        requires
            i < old(self).nodes@.len(),
            j < old(self).nodes@.len(),
        ensures
            final(self).nodes@ == old(self).nodes@.update(i as int, old(self).nodes@[j as int]).update(
                j as int,
                old(self).nodes@[i as int],
            ),
            final(self)@ == old(self)@,
    {
        proof {
            lemma_swap_keeps_entries(self.nodes@, i as int, j as int);
        }
        let a: Node = self.nodes[i];
        let b: Node = self.nodes[j];
        self.nodes.set(i, b);
        self.nodes.set(j, a);
    }

    /// Add an entry to the queue.
    pub fn push(&mut self, node: Node)
        requires
            old(self).wf(),
        ensures
            final(self).wf(),
            final(self)@ == old(self)@.insert(node),
            final(self)@.len() == old(self)@.len() + 1,
    {
        proof {
            vstd::seq_lib::to_multiset_build(self.nodes@, node);
            vstd::seq_lib::to_multiset_len(self.nodes@);
            vstd::seq_lib::to_multiset_len(self.nodes@.push(node));
        }
        self.nodes.push(node);
        let mut i: usize = self.nodes.len() - 1;
        while i > 0 && self.nodes[i].f_score < self.nodes[(i - 1) / 2].f_score
            invariant
                0 <= i < self.nodes@.len(),
                self@ == old(self)@.insert(node),
                self.nodes@.len() == old(self).nodes@.len() + 1,
                forall|k: int|
                    1 <= k < self.nodes@.len() && k != i ==> self.nodes@[(k - 1) / 2].f_score <= (
                    #[trigger] self.nodes@[k]).f_score,
                forall|k: int|
                    1 <= k < self.nodes@.len() && (k - 1) / 2 == i && i > 0 ==> self.nodes@[(i - 1)
                        / 2].f_score <= (#[trigger] self.nodes@[k]).f_score,
            decreases i,
        {
            let parent: usize = (i - 1) / 2;
            self.swap(i, parent);
            i = parent;
        }
        proof {
            vstd::seq_lib::to_multiset_len(self.nodes@);
        }
    }

    /// Take an entry with the lowest f-score off the queue.
    pub fn pop(&mut self) -> (least: Option<Node>)
        requires
            old(self).wf(),
        ensures
            final(self).wf(),
            least.is_none() <==> old(self)@.len() == 0,
            least.is_none() ==> final(self)@ == old(self)@,
            least.is_some() ==> {
                &&& old(self)@.count(least.unwrap()) > 0
                &&& final(self)@ == old(self)@.remove(least.unwrap())
                &&& final(self)@.len() == old(self)@.len() - 1
                &&& forall|n: Node| old(self)@.count(n) > 0 ==> least.unwrap().f_score <= n.f_score
            },
    {
        proof {
            vstd::seq_lib::to_multiset_len(self.nodes@);
        }
        if self.nodes.len() == 0 {
            return None;
        }
        let root: Node = self.nodes[0];
        let ghost before = self.nodes@;
        proof {
            assert forall|n: Node| before.to_multiset().count(n) > 0 implies root.f_score
                <= n.f_score by {
                vstd::seq_lib::to_multiset_contains(before, n);
                let k = choose|k: int| 0 <= k < before.len() && before[k] == n;
                lemma_root_is_least(before, k);
            }
            vstd::seq_lib::to_multiset_contains(before, root);
            assert(before.contains(root));
        }
        let last: Node = self.nodes.pop().unwrap();
        let ghost rest = self.nodes@;
        proof {
            assert(before =~= rest.push(last));
            vstd::seq_lib::to_multiset_build(rest, last);
            vstd::seq_lib::to_multiset_len(rest);
        }
        if self.nodes.len() == 0 {
            proof {
                assert(root == last);
                assert(rest.to_multiset() =~= before.to_multiset().remove(root));
            }
            return Some(root);
        }
        self.nodes.set(0, last);
        proof {
            vstd::seq_lib::to_multiset_update(rest, 0, last);
            assert(self.nodes@.to_multiset() =~= before.to_multiset().remove(root));
            vstd::seq_lib::to_multiset_len(self.nodes@);
        }
        let count: usize = self.nodes.len();
        let mut i: usize = 0;
        let mut settled: bool = false;
        while !settled
            invariant
                count == self.nodes@.len(),
                count == before.len() - 1,
                0 <= i < count,
                self@ == before.to_multiset().remove(root),
                settled ==> heap_ordered(self.nodes@),
                forall|k: int|
                    1 <= k < count && (k - 1) / 2 != i ==> self.nodes@[(k - 1) / 2].f_score <= (
                    #[trigger] self.nodes@[k]).f_score,
                forall|k: int|
                    1 <= k < count && (k - 1) / 2 == i && i > 0 ==> self.nodes@[(i - 1) / 2].f_score
                        <= (#[trigger] self.nodes@[k]).f_score,
            decreases count - i, (if settled { 0int } else { 1int }),
        {
            if i >= count / 2 {
                settled = true;
            } else {
                let left: usize = 2 * i + 1;
                let right: usize = left + 1;
                let mut least: usize = left;
                if right < count && self.nodes[right].f_score < self.nodes[left].f_score {
                    least = right;
                }
                if self.nodes[least].f_score < self.nodes[i].f_score {
                    self.swap(i, least);
                    i = least;
                } else {
                    settled = true;
                }
            }
        }
        Some(root)
    }
}

} // verus!
