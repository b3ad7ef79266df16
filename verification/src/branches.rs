//! Ordering the predecessor list of a node in place.

use crate::graph::{edges_of, fan_in, lemma_fan_in_same, well_formed, Graph};
use crate::node::Node;
use crate::order::{
    goes_first, is_ordering_of, lemma_index_of_unique, placed_before, precedes, BranchOrder,
};
use vstd::prelude::*;

verus! {

/// `new` is `old` but for the order of the predecessors of `node`.
pub open spec fn same_but_branch_order<T>(old: Seq<Node<T>>, new: Seq<Node<T>>, node: int) -> bool {
    &&& new.len() == old.len()
    &&& new[node].same_but_predecessors(&old[node])
    &&& forall|j: int| 0 <= j < old.len() && j != node ==> #[trigger] new[j] == old[j]
}

/// Reordering the predecessors of one node keeps a registry well-formed.
pub proof fn lemma_reorder_keeps_wf<T>(old: Seq<Node<T>>, new: Seq<Node<T>>, node: int)
    requires
        well_formed(old),
        0 <= node < old.len(),
        same_but_branch_order(old, new, node),
        new[node].predecessors@.no_duplicates(),
        forall|x: usize|
            new[node].predecessors@.contains(x) <==> old[node].predecessors@.contains(x),
    ensures
        well_formed(new),
{
    let e0 = edges_of(old);
    let e1 = edges_of(new);
    assert forall|i: int, j: int| 0 <= i < j < new.len() implies (#[trigger] new[i]).path@
        != (#[trigger] new[j]).path@ by {
        assert(old[i].path@ != old[j].path@);
    }
    assert forall|u: int| 0 <= u < e1.len() implies (#[trigger] e1[u]).no_duplicates() && forall|
        k: int,
    |
        0 <= k < e1[u].len() ==> (#[trigger] e1[u][k]) < e1.len() && e1[u][k] != u by {
        if u == node {
            assert(e0[u].no_duplicates());
            assert forall|k: int| 0 <= k < e1[u].len() implies (#[trigger] e1[u][k]) < e1.len()
                && e1[u][k] != u by {
                assert(e1[u].contains(e1[u][k]));
                assert(e0[u].contains(e1[u][k]));
                let m = choose|m: int| 0 <= m < e0[u].len() && e0[u][m] == e1[u][k];
                assert(e0[u][m] < e0.len());
            }
        } else {
            assert(e1[u] == e0[u]);
        }
    }
    assert forall|v: usize| v < new.len() implies (#[trigger] new[v as int]).num_successors
        == fan_in(e1, v) by {
        assert(old[v as int].num_successors == fan_in(e0, v));
        assert forall|u: int| 0 <= u < e0.len() implies (#[trigger] e1[u]).contains(v)
            == e0[u].contains(v) by {
            if u != node {
                assert(e1[u] == e0[u]);
            }
        }
        lemma_fan_in_same(e0, e1, v);
    }
}

/// A branch that goes before a second one goes before every branch that
/// does not go before the second.
pub proof fn lemma_precedes_carries<T>(
    order: BranchOrder,
    reverse: bool,
    a: Node<T>,
    b: Node<T>,
    c: Node<T>,
)
    requires
        precedes(order, reverse, a, b),
        !precedes(order, reverse, c, b),
    ensures
        precedes(order, reverse, a, c),
        !precedes(order, reverse, b, a),
{
}

/// An element of an arrangement of the first `k` elements of `list`
/// stands before position `k` in `list`.
pub proof fn lemma_seen_before(list: Seq<usize>, prev: Seq<usize>, k: int, i: int)
    requires
        list.no_duplicates(),
        0 <= k < list.len(),
        forall|x: usize| prev.contains(x) <==> list.take(k).contains(x),
        0 <= i < prev.len(),
    ensures
        list.contains(prev[i]),
        0 <= list.index_of(prev[i]) < k,
        prev[i] != list[k],
{
    let seen = list.take(k);
    assert(prev.contains(prev[i]));
    assert(seen.contains(prev[i]));
    let m = choose|m: int| 0 <= m < seen.len() && seen[m] == prev[i];
    assert(list[m] == prev[i]);
    lemma_index_of_unique(list, m);
}

/// Putting the next element of `list` before the first element that it
/// goes strictly before keeps an arrangement in order.
pub proof fn lemma_insert_in_order<T>(
    nodes: Seq<Node<T>>,
    order: BranchOrder,
    reverse: bool,
    list: Seq<usize>,
    prev: Seq<usize>,
    k: int,
    pos: int,
)
    requires
        list.no_duplicates(),
        0 <= k < list.len(),
        prev.len() == k,
        prev.no_duplicates(),
        forall|x: usize| prev.contains(x) <==> list.take(k).contains(x),
        forall|i: int, j: int|
            0 <= i < j < prev.len() ==> placed_before(
                nodes,
                order,
                reverse,
                list,
                #[trigger] prev[i],
                #[trigger] prev[j],
            ),
        0 <= pos <= prev.len(),
        forall|i: int|
            0 <= i < pos ==> !precedes(
                order,
                reverse,
                nodes[list[k] as int],
                nodes[(#[trigger] prev[i]) as int],
            ),
        pos < prev.len() ==> precedes(
            order,
            reverse,
            nodes[list[k] as int],
            nodes[prev[pos] as int],
        ),
    ensures
        prev.insert(pos, list[k]).no_duplicates(),
        forall|x: usize| prev.insert(pos, list[k]).contains(x) <==> list.take(k + 1).contains(x),
        forall|i: int, j: int|
            0 <= i < j < prev.insert(pos, list[k]).len() ==> placed_before(
                nodes,
                order,
                reverse,
                list,
                #[trigger] prev.insert(pos, list[k])[i],
                #[trigger] prev.insert(pos, list[k])[j],
            ),
{
    let x = list[k];
    let next = prev.insert(pos, x);
    let grown = list.take(k + 1);
    let seen = list.take(k);
    lemma_index_of_unique(list, k);
    assert(grown =~= seen.push(x));
    assert forall|v: usize| next.contains(v) <==> grown.contains(v) by {
        if next.contains(v) {
            let i = choose|i: int| 0 <= i < next.len() && next[i] == v;
            if i < pos {
                assert(prev[i] == v);
                assert(prev.contains(v));
            } else if i > pos {
                assert(prev[i - 1] == v);
                assert(prev.contains(v));
            }
            if v != x {
                let m = choose|m: int| 0 <= m < seen.len() && seen[m] == v;
                assert(grown[m] == v);
            } else {
                assert(grown[k] == v);
            }
        }
        if grown.contains(v) {
            let m = choose|m: int| 0 <= m < grown.len() && grown[m] == v;
            if m < k {
                assert(seen[m] == v);
                assert(prev.contains(v));
                let i = choose|i: int| 0 <= i < prev.len() && prev[i] == v;
                if i < pos {
                    assert(next[i] == v);
                } else {
                    assert(next[i + 1] == v);
                }
            } else {
                assert(next[pos] == v);
            }
        }
    }
    assert forall|i: int, j: int| 0 <= i < j < next.len() implies placed_before(
        nodes,
        order,
        reverse,
        list,
        #[trigger] next[i],
        #[trigger] next[j],
    ) by {
        let a = if i < pos {
            i
        } else {
            i - 1
        };
        let b = if j < pos {
            j
        } else {
            j - 1
        };
        if i != pos && j != pos {
            assert(next[i] == prev[a] && next[j] == prev[b]);
            assert(placed_before(nodes, order, reverse, list, prev[a], prev[b]));
        } else if j == pos {
            assert(next[i] == prev[i]);
            assert(!precedes(order, reverse, nodes[x as int], nodes[prev[i] as int]));
            lemma_seen_before(list, prev, k, i);
        } else {
            assert(next[j] == prev[b]);
            assert(precedes(order, reverse, nodes[x as int], nodes[prev[pos] as int]));
            if b > pos {
                assert(placed_before(nodes, order, reverse, list, prev[pos], prev[b]));
                if precedes(order, reverse, nodes[prev[pos] as int], nodes[prev[b] as int]) {
                    lemma_precedes_carries(
                        order,
                        reverse,
                        nodes[prev[pos] as int],
                        nodes[prev[b] as int],
                        nodes[prev[b] as int],
                    );
                }
                lemma_precedes_carries(
                    order,
                    reverse,
                    nodes[x as int],
                    nodes[prev[pos] as int],
                    nodes[prev[b] as int],
                );
            }
        }
    }
    assert forall|i: int, j: int|
        0 <= i < next.len() && 0 <= j < next.len() && i != j implies next[i] != next[j] by {
        let a = if i < pos {
            i
        } else {
            i - 1
        };
        let b = if j < pos {
            j
        } else {
            j - 1
        };
        if i != pos && j != pos {
            assert(next[i] == prev[a] && next[j] == prev[b]);
        } else if i == pos {
            assert(next[j] == prev[b]);
            lemma_seen_before(list, prev, k, b);
        } else {
            assert(next[i] == prev[a]);
            lemma_seen_before(list, prev, k, a);
        }
    }
}

/// The nodes of `list` in the order that `order` asks for: of two of them
/// the one that goes first under `order` comes first, and two that rank
/// alike keep their order.
pub fn order_branches<T>(
    nodes: &Graph<T>,
    list: &Vec<usize>,
    reverse: bool,
    order: BranchOrder,
) -> (out: Vec<usize>)
    requires
        list@.no_duplicates(),
        forall|i: int| 0 <= i < list@.len() ==> (#[trigger] list@[i]) < nodes@.len(),
    ensures
        is_ordering_of(nodes@, order, reverse, list@, out@),
{
    let mut out: Vec<usize> = Vec::new();
    let mut k: usize = 0;
    while k < list.len()
        invariant
            list@.no_duplicates(),
            forall|i: int| 0 <= i < list@.len() ==> (#[trigger] list@[i]) < nodes@.len(),
            k <= list@.len(),
            out@.len() == k,
            out@.no_duplicates(),
            forall|x: usize| out@.contains(x) <==> list@.take(k as int).contains(x),
            forall|i: int, j: int|
                0 <= i < j < out@.len() ==> placed_before(
                    nodes@,
                    order,
                    reverse,
                    list@,
                    #[trigger] out@[i],
                    #[trigger] out@[j],
                ),
        decreases list@.len() - k,
    {
        let x = list[k];
        let ghost prev = out@;
        proof {
            assert forall|i: int| 0 <= i < prev.len() implies (#[trigger] prev[i])
                < nodes@.len() by {
                lemma_seen_before(list@, prev, k as int, i);
                let m = list@.index_of(prev[i]);
                assert(list@[m] < nodes@.len());
            }
        }
        let mut pos: usize = 0;
        let mut found = false;
        while pos < out.len() && !found
            invariant
                out@ == prev,
                x < nodes@.len(),
                pos <= prev.len(),
                forall|i: int| 0 <= i < prev.len() ==> (#[trigger] prev[i]) < nodes@.len(),
                forall|i: int|
                    0 <= i < pos - if found {
                        1int
                    } else {
                        0int
                    } ==> !precedes(
                        order,
                        reverse,
                        nodes@[x as int],
                        nodes@[(#[trigger] prev[i]) as int],
                    ),
                found ==> pos >= 1 && precedes(
                    order,
                    reverse,
                    nodes@[x as int],
                    nodes@[prev[pos - 1] as int],
                ),
            decreases prev.len() - pos + if found {
                0int
            } else {
                1int
            },
        {
            let y = out[pos];
            found = goes_first(order, reverse, &nodes.nodes[x], &nodes.nodes[y]);
            pos = pos + 1;
        }
        if found {
            pos = pos - 1;
        }
        out.insert(pos, x);
        proof {
            lemma_insert_in_order(nodes@, order, reverse, list@, prev, k as int, pos as int);
        }
        k = k + 1;
    }
    proof {
        assert(list@.take(k as int) =~= list@);
    }
    out
}

impl<T> Graph<T> {
    /// Orders the predecessors of `node` by `order`: the list keeps its
    /// elements, and of two of them the one that goes first under `order`
    /// comes first; two that rank alike keep their order.
    pub fn sort_predecessor_branches(&mut self, node: usize, reverse: bool, order: BranchOrder)
        requires
            old(self).wf(),
            node < old(self)@.len(),
        ensures
            final(self).wf(),
            same_but_branch_order(old(self)@, final(self)@, node as int),
            is_ordering_of(
                old(self)@,
                order,
                reverse,
                old(self)@[node as int].predecessors@,
                final(self)@[node as int].predecessors@,
            ),
    {
        let list = self.nodes[node].predecessors();
        proof {
            assert(edges_of(self@)[node as int] == list@);
            assert(list@.no_duplicates());
            assert forall|i: int| 0 <= i < list@.len() implies (#[trigger] list@[i])
                < self@.len() by {
                assert(edges_of(self@)[node as int][i] < self@.len());
            }
        }
        let out = order_branches(self, &list, reverse, order);
        self.nodes[node].predecessors = out;
        proof {
            lemma_reorder_keeps_wf(old(self)@, self@, node as int);
        }
    }
}

/// The predecessors of `v` stand in the order that `order` asks for: none
/// goes strictly before one that stands earlier.
pub open spec fn branches_ordered<T>(
    nodes: Seq<Node<T>>,
    v: int,
    order: BranchOrder,
    reverse: bool,
) -> bool {
    let list = nodes[v].predecessors@;
    forall|i: int, j: int|
        #![trigger list[i], list[j]]
        0 <= i < j < list.len() ==> !precedes(
            order,
            reverse,
            nodes[list[j] as int],
            nodes[list[i] as int],
        )
}

/// `new` is `old` but for the order of predecessors.
pub open spec fn reordered<T>(old: Seq<Node<T>>, new: Seq<Node<T>>) -> bool {
    &&& new.len() == old.len()
    &&& forall|v: int| 0 <= v < old.len() ==> #[trigger] reordered_at(old, new, v)
}

/// What [`reordered`] says of node `v`.
pub open spec fn reordered_at<T>(old: Seq<Node<T>>, new: Seq<Node<T>>, v: int) -> bool {
    &&& new[v].same_but_predecessors(&old[v])
    &&& new[v].predecessors@.len() == old[v].predecessors@.len()
    &&& forall|y: usize| new[v].predecessors@.contains(y) <==> old[v].predecessors@.contains(y)
}

/// What [`Graph::sort_all_branches`] leaves at node `v`: its predecessors
/// as `old` has them, in the order that `order` asks for.
pub open spec fn ordered_at<T>(
    old: Seq<Node<T>>,
    new: Seq<Node<T>>,
    order: BranchOrder,
    reverse: bool,
    v: int,
) -> bool {
    is_ordering_of(old, order, reverse, old[v].predecessors@, new[v].predecessors@)
}

/// [`ordered_at`] for every node.
pub open spec fn each_ordered<T>(
    old: Seq<Node<T>>,
    new: Seq<Node<T>>,
    order: BranchOrder,
    reverse: bool,
) -> bool {
    forall|v: int| 0 <= v < old.len() ==> #[trigger] ordered_at(old, new, order, reverse, v)
}

/// An ordering depends only on deadline and cost of the nodes ordered.
pub proof fn lemma_ordering_by_same_keys<T>(
    a: Seq<Node<T>>,
    b: Seq<Node<T>>,
    order: BranchOrder,
    reverse: bool,
    list: Seq<usize>,
    out: Seq<usize>,
)
    requires
        is_ordering_of(a, order, reverse, list, out),
        a.len() == b.len(),
        forall|i: int|
            0 <= i < a.len() ==> (#[trigger] a[i]).dag_cost == b[i].dag_cost && a[i].deadline
                == b[i].deadline,
        forall|i: int| 0 <= i < list.len() ==> (#[trigger] list[i]) < a.len(),
    ensures
        is_ordering_of(b, order, reverse, list, out),
{
    assert forall|i: int, j: int| 0 <= i < j < out.len() implies placed_before(
        b,
        order,
        reverse,
        list,
        #[trigger] out[i],
        #[trigger] out[j],
    ) by {
        assert(placed_before(a, order, reverse, list, out[i], out[j]));
        assert(out.contains(out[i]) && out.contains(out[j]));
        let x = choose|x: int| 0 <= x < list.len() && list[x] == out[i];
        let y = choose|y: int| 0 <= y < list.len() && list[y] == out[j];
        assert(a[out[i] as int].dag_cost == b[out[i] as int].dag_cost);
        assert(a[out[j] as int].dag_cost == b[out[j] as int].dag_cost);
    }
}

impl<T> Graph<T> {
    /// Orders the predecessors of every node by `order`.
    pub fn sort_all_branches(&mut self, reverse: bool, order: BranchOrder)
        requires
            old(self).wf(),
        ensures
            final(self).wf(),
            reordered(old(self)@, final(self)@),
            forall|v: int|
                0 <= v < final(self)@.len() ==> #[trigger] branches_ordered(
                    final(self)@,
                    v,
                    order,
                    reverse,
                ),
            each_ordered(old(self)@, final(self)@, order, reverse),
    {
        let n = self.len();
        let mut i: usize = 0;
        proof {
            assert forall|v: int| 0 <= v < n implies #[trigger] reordered_at(
                old(self)@,
                self@,
                v,
            ) by {}
        }
        while i < n
            invariant
                self.wf(),
                n == self@.len(),
                i <= n,
                reordered(old(self)@, self@),
                forall|v: int|
                    0 <= v < i ==> #[trigger] branches_ordered(self@, v, order, reverse),
                old(self).wf(),
                forall|v: int|
                    0 <= v < i ==> #[trigger] ordered_at(old(self)@, self@, order, reverse, v),
                forall|v: int| i <= v < n ==> #[trigger] self@[v] == old(self)@[v],
            decreases n - i,
        {
            let ghost before = self@;
            self.sort_predecessor_branches(i, reverse, order);
            proof {
                assert forall|v: int| 0 <= v < i + 1 implies #[trigger] ordered_at(
                    old(self)@,
                    self@,
                    order,
                    reverse,
                    v,
                ) by {
                    if v < i {
                        assert(ordered_at(old(self)@, before, order, reverse, v));
                        assert(self@[v] == before[v]);
                    } else {
                        assert(before[v] == old(self)@[v]);
                        assert forall|x: int| 0 <= x < before.len() implies (#[trigger] before[x]).dag_cost
                            == old(self)@[x].dag_cost && before[x].deadline == old(
                            self,
                        )@[x].deadline by {
                            assert(reordered_at(old(self)@, before, x));
                        }
                        assert forall|x: int|
                            0 <= x < before[v].predecessors@.len() implies (
                        #[trigger] before[v].predecessors@[x]) < before.len() by {
                            assert(edges_of(before)[v][x] < before.len());
                        }
                        lemma_ordering_by_same_keys(
                            before,
                            old(self)@,
                            order,
                            reverse,
                            before[v].predecessors@,
                            self@[v].predecessors@,
                        );
                    }
                }
                let after = self@;
                assert forall|v: int| 0 <= v < n implies #[trigger] reordered_at(
                    old(self)@,
                    after,
                    v,
                ) by {
                    assert(reordered_at(old(self)@, before, v));
                    if v != i {
                        assert(after[v] == before[v]);
                    }
                }
                assert forall|v: int| 0 <= v < i + 1 implies #[trigger] branches_ordered(
                    after,
                    v,
                    order,
                    reverse,
                ) by {
                    let list = after[v].predecessors@;
                    if v < i {
                        assert(branches_ordered(before, v, order, reverse));
                        assert(after[v] == before[v]);
                        assert forall|a: int, b: int|
                            #![trigger list[a], list[b]]
                            0 <= a < b < list.len() implies !precedes(
                            order,
                            reverse,
                            after[list[b] as int],
                            after[list[a] as int],
                        ) by {
                            assert(edges_of(before)[v][a] == list[a]);
                            assert(edges_of(before)[v][b] == list[b]);
                            assert(edges_of(before)[v].no_duplicates());
                        }
                    } else {
                        let was = before[v].predecessors@;
                        assert forall|a: int, b: int|
                            #![trigger list[a], list[b]]
                            0 <= a < b < list.len() implies !precedes(
                            order,
                            reverse,
                            after[list[b] as int],
                            after[list[a] as int],
                        ) by {
                            assert(placed_before(before, order, reverse, was, list[a], list[b]));
                            assert(list.contains(list[a]) && list.contains(list[b]));
                            assert(was.contains(list[a]) && was.contains(list[b]));
                            let x = choose|x: int| 0 <= x < was.len() && was[x] == list[a];
                            let y = choose|y: int| 0 <= y < was.len() && was[y] == list[b];
                            assert(edges_of(before)[v][x] == list[a]);
                            assert(edges_of(before)[v][y] == list[b]);
                            assert(edges_of(before)[v].no_duplicates());
                            if precedes(
                                order,
                                reverse,
                                before[list[a] as int],
                                before[list[b] as int],
                            ) {
                                lemma_precedes_carries(
                                    order,
                                    reverse,
                                    before[list[a] as int],
                                    before[list[b] as int],
                                    before[list[b] as int],
                                );
                            }
                        }
                    }
                }
            }
            i = i + 1;
        }
    }
}

} // verus!
