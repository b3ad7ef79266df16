//! Transitive reduction of one node's predecessor list.
//!
//! A direct edge from a node to a predecessor that one of its other
//! predecessors already depends on says nothing new; the reducer takes such
//! edges out. When every direct edge is of that kind, the first one stays,
//! so that a node never loses all its predecessors.

use crate::graph::{edges_of, well_formed, without_edge_at, Graph};
use crate::node::Node;
use vstd::prelude::*;

verus! {

/// Whether some predecessor of `node` has `p` among its own predecessors.
pub open spec fn implied(edges: Seq<Seq<usize>>, node: int, p: usize) -> bool {
    exists|c: int|
        0 <= c < edges[node].len() && (#[trigger] edges[edges[node][c] as int]).contains(p)
}

/// Whether every predecessor of `node` is implied by another one.
pub open spec fn all_implied(edges: Seq<Seq<usize>>, node: int) -> bool {
    forall|k: int| 0 <= k < edges[node].len() ==> implied(edges, node, #[trigger] edges[node][k])
}

/// The predicate "the edge from `node` to `p` survives the reduction".
pub open spec fn stays(edges: Seq<Seq<usize>>, node: int) -> spec_fn(usize) -> bool {
    |p: usize| !implied(edges, node, p) || (all_implied(edges, node) && p == edges[node][0])
}

/// The predecessors of `node` after its reduction.
pub open spec fn reduced_list(edges: Seq<Seq<usize>>, node: int) -> Seq<usize> {
    edges[node].filter(stays(edges, node))
}

/// `new` is `old` with `node` reduced: its list is filtered, every node
/// that left the list is counted once less, and nothing else has changed.
pub open spec fn reduced<T>(old: Seq<Node<T>>, new: Seq<Node<T>>, node: int) -> bool {
    let edges = edges_of(old);
    &&& new.len() == old.len()
    &&& new[node].predecessors@ == reduced_list(edges, node)
    &&& new[node].same_but_predecessors(&old[node])
    &&& forall|j: int|
        0 <= j < old.len() && j != node ==> #[trigger] new[j] == (Node {
            num_successors: (old[j].num_successors - if edges[node].contains(j as usize)
                && !stays(edges, node)(j as usize) {
                1int
            } else {
                0int
            }) as usize,
            ..old[j]
        })
}

/// No predecessor of `node` is a predecessor of another predecessor of `node`.
pub open spec fn no_shortcuts<T>(nodes: Seq<Node<T>>, node: int) -> bool {
    let list = nodes[node].predecessors@;
    forall|a: int, b: int|
        #![trigger list[a], list[b]]
        0 <= a < list.len() && 0 <= b < list.len() ==> !nodes[list[a] as int].predecessors@.contains(
            list[b],
        )
}

/// A reduction leaves a predecessor wherever there was one.
pub proof fn lemma_reduced_list_nonempty(edges: Seq<Seq<usize>>, node: int)
    requires
        0 <= node < edges.len(),
        edges[node].len() > 0,
    ensures
        reduced_list(edges, node).len() > 0,
{
    let list = edges[node];
    let keep = stays(edges, node);
    if all_implied(edges, node) {
        assert(keep(list[0]));
        list.lemma_filter_contains(keep, 0);
    } else {
        let k = choose|k: int| 0 <= k < list.len() && !implied(edges, node, #[trigger] list[k]);
        assert(keep(list[k]));
        list.lemma_filter_contains(keep, k);
    }
}

/// Unless every direct edge was implied, no surviving predecessor is a
/// predecessor of another surviving predecessor.
pub proof fn lemma_reduced_list_minimal(edges: Seq<Seq<usize>>, node: int, a: int, b: int)
    requires
        0 <= node < edges.len(),
        !all_implied(edges, node),
        0 <= a < reduced_list(edges, node).len(),
        0 <= b < reduced_list(edges, node).len(),
    ensures
        !edges[reduced_list(edges, node)[a] as int].contains(reduced_list(edges, node)[b]),
{
    let list = edges[node];
    let keep = stays(edges, node);
    let kept = reduced_list(edges, node);
    list.lemma_filter_pred(keep, b);
    assert(kept.contains(kept[a]));
    list.lemma_filter_contains_rev(keep, kept[a]);
    let c = choose|c: int| 0 <= c < list.len() && list[c] == kept[a];
    if edges[kept[a] as int].contains(kept[b]) {
        assert(edges[edges[node][c] as int].contains(kept[b]));
        assert(implied(edges, node, kept[b]));
    }
}

/// Whether `p` is a predecessor of one of the predecessors of `node`.
fn is_implied<T>(nodes: &Graph<T>, node: usize, p: usize) -> (r: bool)
    requires
        nodes.wf(),
        node < nodes@.len(),
    ensures
        r == implied(edges_of(nodes@), node as int, p),
{
    let ghost edges = edges_of(nodes@);
    let count = nodes.nodes[node].predecessors.len();
    let mut c: usize = 0;
    while c < count
        invariant
            nodes.wf(),
            node < nodes@.len(),
            edges == edges_of(nodes@),
            count == edges[node as int].len(),
            c <= count,
            forall|d: int| 0 <= d < c ==> !(#[trigger] edges[edges[node as int][d] as int]).contains(p),
        decreases count - c,
    {
        let child = nodes.nodes[node].predecessors[c];
        proof {
            assert(edges[node as int][c as int] == child);
            assert(edges[node as int].no_duplicates());
            assert(edges[child as int] == nodes@[child as int].predecessors@);
        }
        if nodes.nodes[child].has_predecessor(p) {
            return true;
        }
        c = c + 1;
    }
    false
}

/// Takes out every direct edge from `node` to a predecessor that another of
/// its predecessors depends on. If that holds of every direct edge, the
/// first one stays.
pub fn remove_indirect_predecessors<T>(nodes: &mut Graph<T>, node: usize)
    requires
        old(nodes).wf(),
        node < old(nodes)@.len(),
    ensures
        final(nodes).wf(),
        reduced(old(nodes)@, final(nodes)@, node as int),
        old(nodes)@[node as int].predecessors@.len() > 0 ==> final(nodes)@[node as int].predecessors@.len() > 0,
        no_shortcuts(final(nodes)@, node as int),
{
    let ghost edges = edges_of(nodes@);
    let ghost list = edges[node as int];
    let count = nodes.nodes[node].predecessors.len();
    // Which direct edges are implied, and whether all of them are.
    let mut marks: Vec<bool> = Vec::new();
    let mut all = true;
    let mut k: usize = 0;
    while k < count
        invariant
            nodes.wf(),
            *nodes == *old(nodes),
            node < nodes@.len(),
            edges == edges_of(nodes@),
            list == edges[node as int],
            count == list.len(),
            k <= count,
            marks@.len() == k,
            forall|i: int| 0 <= i < k ==> marks@[i] == implied(edges, node as int, #[trigger] list[i]),
            all == forall|i: int| 0 <= i < k ==> implied(edges, node as int, #[trigger] list[i]),
        decreases count - k,
    {
        let p = nodes.nodes[node].predecessors[k];
        let marked = is_implied(nodes, node, p);
        marks.push(marked);
        if !marked {
            all = false;
        }
        k = k + 1;
    }
    let ghost keep = stays(edges, node as int);
    proof {
        assert(all == all_implied(edges, node as int));
        assert(list.skip(count as int) =~= Seq::<usize>::empty());
        assert(list.take(count as int) =~= list);
        assert(list.skip(count as int).filter(keep) =~= Seq::<usize>::empty()) by {
            list.skip(count as int).lemma_filter_len(keep);
        }
        assert(nodes@[node as int].predecessors@ =~= list.take(count as int) + list.skip(
            count as int,
        ).filter(keep));
    }
    let mut i: usize = count;
    while i > 0
        invariant
            well_formed(old(nodes)@),
            nodes.wf(),
            node < nodes@.len(),
            nodes@.len() == old(nodes)@.len(),
            edges == edges_of(old(nodes)@),
            list == edges[node as int],
            keep == stays(edges, node as int),
            count == list.len(),
            i <= count,
            marks@.len() == count,
            forall|m: int| 0 <= m < count ==> marks@[m] == implied(edges, node as int, #[trigger] list[m]),
            all == all_implied(edges, node as int),
            nodes@[node as int].predecessors@ == list.take(i as int) + list.skip(i as int).filter(
                keep,
            ),
            nodes@[node as int].same_but_predecessors(&old(nodes)@[node as int]),
            forall|j: int|
                0 <= j < nodes@.len() && j != node ==> #[trigger] nodes@[j] == (Node {
                    num_successors: (old(nodes)@[j].num_successors - if list.skip(
                        i as int,
                    ).contains(j as usize) && !keep(j as usize) {
                        1int
                    } else {
                        0int
                    }) as usize,
                    ..old(nodes)@[j]
                }),
        decreases i,
    {
        i = i - 1;
        let ghost before = nodes@;
        let ghost tail = list.skip(i + 1).filter(keep);
        let ghost p = list[i as int];
        proof {
            assert(list.no_duplicates());
            assert(list.skip(i as int) =~= seq![p] + list.skip(i + 1));
            list.skip(i + 1).lemma_filter_prepend(p, keep);
            assert(before[node as int].predecessors@[i as int] == p);
            assert(keep(p) == !(marks@[i as int] && !(all && i == 0))) by {
                if all && i != 0 {
                    assert(list[i as int] != list[0]);
                }
            }
            assert(p != node);
        }
        if marks[i] && !(all && i == 0) {
            nodes.remove_predecessor_by_index(node, i);
            proof {
                assert(without_edge_at(before, nodes@, node as int, i as int));
                assert(nodes@[node as int].predecessors@ =~= list.take(i as int) + list.skip(
                    i as int,
                ).filter(keep));
            }
        } else {
            proof {
                assert(nodes@[node as int].predecessors@ =~= list.take(i as int) + list.skip(
                    i as int,
                ).filter(keep));
            }
        }
        proof {
            assert forall|j: int| 0 <= j < nodes@.len() && j != node implies #[trigger] nodes@[j]
                == (Node {
                num_successors: (old(nodes)@[j].num_successors - if list.skip(i as int).contains(
                    j as usize,
                ) && !keep(j as usize) {
                    1int
                } else {
                    0int
                }) as usize,
                ..old(nodes)@[j]
            }) by {
                let rest = list.skip(i + 1);
                let here = list.skip(i as int);
                assert(here.contains(j as usize) == (rest.contains(j as usize) || j == p)) by {
                    if rest.contains(j as usize) {
                        let m = choose|m: int| 0 <= m < rest.len() && rest[m] == j as usize;
                        assert(here[m + 1] == j as usize);
                    }
                    if j == p {
                        assert(here[0] == j as usize);
                    }
                    if here.contains(j as usize) {
                        let m = choose|m: int| 0 <= m < here.len() && here[m] == j as usize;
                        if m > 0 {
                            assert(rest[m - 1] == j as usize);
                        }
                    }
                }
                if j == p {
                    assert(!rest.contains(p)) by {
                        if rest.contains(p) {
                            let m = choose|m: int| 0 <= m < rest.len() && rest[m] == p;
                            assert(list[i + 1 + m] == list[i as int]);
                        }
                    }
                }
            }
        }
    }
    proof {
        assert(list.take(0) =~= Seq::<usize>::empty());
        assert(list.skip(0) =~= list);
        assert(nodes@[node as int].predecessors@ =~= reduced_list(edges, node as int));
        assert forall|j: int| 0 <= j < nodes@.len() && j != node implies #[trigger] nodes@[j]
            == (Node {
            num_successors: (old(nodes)@[j].num_successors - if edges[node as int].contains(
                j as usize,
            ) && !stays(edges, node as int)(j as usize) {
                1int
            } else {
                0int
            }) as usize,
            ..old(nodes)@[j]
        }) by {}
        if list.len() > 0 {
            lemma_reduced_list_nonempty(edges, node as int);
        }
        let kept = nodes@[node as int].predecessors@;
        assert forall|a: int, b: int|
            #![trigger kept[a], kept[b]]
            0 <= a < kept.len() && 0 <= b < kept.len() implies !nodes@[kept[a] as int].predecessors@.contains(
        kept[b]) by {
            assert(kept.contains(kept[a]));
            list.lemma_filter_contains_rev(keep, kept[a]);
            let c = choose|c: int| 0 <= c < list.len() && list[c] == kept[a];
            assert(list[c] != node);
            assert(nodes@[kept[a] as int].predecessors@ == edges[kept[a] as int]);
            if all_implied(edges, node as int) {
                // Only the first direct edge is left.
                list.lemma_filter_pred(keep, a);
                list.lemma_filter_pred(keep, b);
                assert(kept.contains(kept[b]));
                list.lemma_filter_contains_rev(keep, kept[b]);
                let d = choose|d: int| 0 <= d < list.len() && list[d] == kept[b];
                assert(implied(edges, node as int, list[c]));
                assert(implied(edges, node as int, list[d]));
                assert(kept[a] == list[0] && kept[b] == list[0]);
                assert(edges[list[0] as int].no_duplicates());
                if edges[list[0] as int].contains(list[0]) {
                    let m = choose|m: int|
                        0 <= m < edges[list[0] as int].len() && edges[list[0] as int][m]
                            == list[0];
                    assert(edges[list[0] as int][m] != list[0] as int);
                }
            } else {
                lemma_reduced_list_minimal(edges, node as int, a, b);
            }
        }
    }
}

/// `new` is `old` with edges taken out, but never the last edge of a
/// node: records and traversal state are as they were.
pub open spec fn thinned<T>(old: Seq<Node<T>>, new: Seq<Node<T>>) -> bool {
    &&& new.len() == old.len()
    &&& forall|v: int| 0 <= v < old.len() ==> #[trigger] thinned_at(old, new, v)
}

/// What [`thinned`] says of node `v`.
pub open spec fn thinned_at<T>(old: Seq<Node<T>>, new: Seq<Node<T>>, v: int) -> bool {
    &&& new[v].same_record(&old[v])
    &&& new[v].sorted == old[v].sorted
    &&& new[v].dag_cost == old[v].dag_cost
    &&& new[v].times_visited == old[v].times_visited
    &&& forall|y: usize| new[v].predecessors@.contains(y) ==> old[v].predecessors@.contains(y)
    &&& old[v].predecessors@.len() > 0 ==> new[v].predecessors@.len() > 0
}

/// `states` are the registries that lead from `old` to `new` when the
/// nodes are reduced one after the other, in the order of the registry.
pub open spec fn turns<T>(old: Seq<Node<T>>, new: Seq<Node<T>>, states: Seq<Seq<Node<T>>>) -> bool {
    &&& states.len() == old.len() + 1
    &&& states[0] == old
    &&& states[old.len() as int] == new
    &&& forall|i: int| 0 <= i < old.len() ==> #[trigger] reduced(states[i], states[i + 1], i)
}

/// `new` is `old` with every node reduced, one after the other, in the
/// order of the registry.
pub open spec fn reduced_in_turn<T>(old: Seq<Node<T>>, new: Seq<Node<T>>) -> bool {
    exists|states: Seq<Seq<Node<T>>>| turns(old, new, states)
}

/// Reduces every node, in the order of the registry. Afterwards no node
/// has a predecessor that another of its predecessors depends on, and
/// every node that had predecessors has one left.
pub fn remove_all_indirect_predecessors<T>(nodes: &mut Graph<T>)
    requires
        old(nodes).wf(),
    ensures
        final(nodes).wf(),
        reduced_in_turn(old(nodes)@, final(nodes)@),
        thinned(old(nodes)@, final(nodes)@),
        forall|v: int| 0 <= v < final(nodes)@.len() ==> #[trigger] no_shortcuts(final(nodes)@, v),
{
    let n = nodes.len();
    let ghost mut states: Seq<Seq<Node<T>>> = seq![nodes@];
    let mut i: usize = 0;
    proof {
        assert forall|v: int| 0 <= v < n implies #[trigger] thinned_at(old(nodes)@, nodes@, v) by {}
    }
    while i < n
        invariant
            nodes.wf(),
            n == nodes@.len(),
            i <= n,
            thinned(old(nodes)@, nodes@),
            forall|v: int| 0 <= v < i ==> #[trigger] no_shortcuts(nodes@, v),
            n == old(nodes)@.len(),
            states.len() == i + 1,
            states[0] == old(nodes)@,
            states[i as int] == nodes@,
            forall|j: int| 0 <= j < i ==> #[trigger] reduced(states[j], states[j + 1], j),
        decreases n - i,
    {
        let ghost before = nodes@;
        remove_indirect_predecessors(nodes, i);
        proof {
            let earlier = states;
            states = states.push(nodes@);
            assert forall|j: int| 0 <= j < i + 1 implies #[trigger] reduced(
                states[j],
                states[j + 1],
                j,
            ) by {
                if j < i {
                    assert(reduced(earlier[j], earlier[j + 1], j));
                }
            }
            let after = nodes@;
            let edges = edges_of(before);
            let keep = stays(edges, i as int);
            assert(edges[i as int] == before[i as int].predecessors@);
            assert forall|v: int| 0 <= v < n implies #[trigger] thinned_at(before, after, v) by {
                if v == i {
                    assert forall|y: usize| after[v].predecessors@.contains(y) implies before[v].predecessors@.contains(
                    y) by {
                        edges[i as int].lemma_filter_contains_rev(keep, y);
                    }
                } else {
                    assert(after[v].predecessors@ == before[v].predecessors@);
                }
            }
            assert forall|v: int| 0 <= v < n implies #[trigger] thinned_at(
                old(nodes)@,
                after,
                v,
            ) by {
                assert(thinned_at(old(nodes)@, before, v));
                assert(thinned_at(before, after, v));
            }
            assert forall|v: int| 0 <= v < i + 1 implies #[trigger] no_shortcuts(after, v) by {
                if v < i {
                    assert(no_shortcuts(before, v));
                    let list = after[v].predecessors@;
                    assert(list == before[v].predecessors@);
                    assert forall|a: int, b: int|
                        #![trigger list[a], list[b]]
                        0 <= a < list.len() && 0 <= b < list.len() implies !after[list[a] as int].predecessors@.contains(
                    list[b]) by {
                        assert(edges_of(before)[v][a] == list[a]);
                        assert(edges_of(before)[v].no_duplicates());
                        assert(thinned_at(before, after, list[a] as int));
                    }
                }
            }
        }
        i = i + 1;
    }
    proof {
        assert(turns(old(nodes)@, nodes@, states));
    }
}

} // verus!
