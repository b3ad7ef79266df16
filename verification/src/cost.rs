//! The cost evaluator: what a node costs together with all it depends on.
//!
//! Each node below the starting node is evaluated once per run. An edge that
//! leads back to a node whose evaluation is still under way closes a cycle
//! and adds nothing. Sums that do not fit the machine word stay at its
//! largest value.

use crate::counting::{count_below, lemma_count_flip, lemma_count_le};
use crate::graph::{edges_of, fan_in, well_formed, Graph};
use crate::node::Node;
use crate::paths::{acyclic_below, lemma_closed_holds_reachable, lemma_reachable_self, lemma_reachable_step, lemma_reachable_through, ranked_below, reachable};
use vstd::prelude::*;

verus! {

/// The sum of the aggregate costs of the nodes in `list`.
pub open spec fn sum_costs<T>(nodes: Seq<Node<T>>, list: Seq<usize>) -> nat
    decreases list.len(),
{
    if list.len() == 0 {
        0
    } else {
        (sum_costs(nodes, list.drop_last()) + nodes[list.last() as int].dag_cost) as nat
    }
}

/// `x`, or the largest machine word if `x` does not fit.
pub open spec fn capped(x: int) -> usize {
    if x > usize::MAX {
        usize::MAX
    } else {
        x as usize
    }
}

/// The aggregate cost of `v` is its own cost plus the aggregate costs of
/// its predecessors.
pub open spec fn settled<T>(nodes: Seq<Node<T>>, v: int) -> bool {
    nodes[v].dag_cost == capped(nodes[v].cost + sum_costs(nodes, nodes[v].predecessors@))
}

/// `new` differs from `old` at most in aggregate costs.
pub open spec fn same_but_costs<T>(old: Seq<Node<T>>, new: Seq<Node<T>>) -> bool {
    &&& new.len() == old.len()
    &&& forall|i: int|
        0 <= i < old.len() ==> (#[trigger] new[i]) == (Node { dag_cost: new[i].dag_cost, ..old[i] })
}

/// The predicate "node `i` has not been evaluated in this run".
pub open spec fn pending(state: Seq<u8>) -> spec_fn(int) -> bool {
    |i: int| state[i] == 0
}

/// Changing aggregate costs keeps a registry well-formed.
pub proof fn lemma_costs_keep_wf<T>(old: Seq<Node<T>>, new: Seq<Node<T>>)
    requires
        well_formed(old),
        same_but_costs(old, new),
    ensures
        well_formed(new),
        edges_of(new) == edges_of(old),
{
    assert(edges_of(new) =~= edges_of(old));
    assert forall|i: int, j: int| 0 <= i < j < new.len() implies (#[trigger] new[i]).path@
        != (#[trigger] new[j]).path@ by {
        assert(old[i].path@ != old[j].path@);
    }
    assert forall|v: usize| v < new.len() implies (#[trigger] new[v as int]).num_successors
        == fan_in(edges_of(new), v) by {
        assert(old[v as int].num_successors == fan_in(edges_of(old), v));
    }
}

/// A sum of costs depends only on the costs of the nodes listed.
pub proof fn lemma_sum_costs_same<T>(a: Seq<Node<T>>, b: Seq<Node<T>>, list: Seq<usize>)
    requires
        forall|k: int|
            0 <= k < list.len() ==> a[(#[trigger] list[k]) as int].dag_cost
                == b[list[k] as int].dag_cost,
    ensures
        sum_costs(a, list) == sum_costs(b, list),
    decreases list.len(),
{
    if list.len() > 0 {
        let init = list.drop_last();
        assert forall|k: int| 0 <= k < init.len() implies a[(#[trigger] init[k]) as int].dag_cost
            == b[init[k] as int].dag_cost by {
            assert(init[k] == list[k]);
        }
        lemma_sum_costs_same(a, b, init);
        assert(list.last() == list[list.len() - 1]);
    }
}

/// Where the sum fits the machine word, a settled cost is the plain sum.
pub proof fn lemma_settled_exact<T>(nodes: Seq<Node<T>>, v: int)
    requires
        settled(nodes, v),
        nodes[v].cost + sum_costs(nodes, nodes[v].predecessors@) <= usize::MAX,
    ensures
        nodes[v].dag_cost == nodes[v].cost + sum_costs(nodes, nodes[v].predecessors@),
{
}

/// `a + b`, or the largest machine word if the sum does not fit.
pub fn add_capped(a: usize, b: usize) -> (r: usize)
    ensures
        r == capped(a + b),
{
    if b > usize::MAX - a {
        usize::MAX
    } else {
        a + b
    }
}

/// Marks and aggregate costs in the course of an evaluation, as plain
/// values. A mark is 0 for a node that has not been looked at, 1 for one
/// whose evaluation is under way, 2 for one that is done.
#[verifier::ext_equal]
pub struct Tally {
    pub marks: Seq<u8>,
    pub totals: Seq<usize>,
}

/// The aggregate costs of all nodes, by index.
pub open spec fn totals_of<T>(nodes: Seq<Node<T>>) -> Seq<usize> {
    Seq::new(nodes.len(), |i: int| nodes[i].dag_cost)
}

/// What every node costs alone, by index.
pub open spec fn own_costs_of<T>(nodes: Seq<Node<T>>) -> Seq<usize> {
    Seq::new(nodes.len(), |i: int| nodes[i].cost)
}

/// `sub` with the marks of `t` wherever `t` has a mark.
pub open spec fn carried(t: Tally, sub: Tally) -> Tally {
    Tally {
        marks: Seq::new(
            t.marks.len(),
            |i: int|
                if t.marks[i] != 0 {
                    t.marks[i]
                } else {
                    sub.marks[i]
                },
        ),
        totals: sub.totals,
    }
}

/// The tally after `node` has been evaluated: the node is marked as under
/// way, its predecessors are gone through, and it is marked as done with
/// the sum that came of them.
pub open spec fn tally_node(edges: Seq<Seq<usize>>, own: Seq<usize>, t: Tally, node: int) -> Tally
    decreases count_below(t.marks.len() as int, pending(t.marks)), 0nat, 0nat,
    when 0 <= node < t.marks.len() && t.marks[node] == 0
    via tally_node_decreases
{
    let begun = Tally { marks: t.marks.update(node, 1u8), totals: t.totals };
    let found = tally_preds(edges, own, begun, node, 0, own[node]);
    Tally { marks: found.0.marks.update(node, 2u8), totals: found.0.totals.update(node, found.1) }
}

/// The tally and the sum after the predecessors of `node` have been gone
/// through from the `k`-th on, `agg` being the sum so far. A predecessor
/// that has not been looked at is evaluated and adds what it costs in
/// all; one that is done adds what it costs in all; one whose evaluation
/// is under way adds nothing.
pub open spec fn tally_preds(
    edges: Seq<Seq<usize>>,
    own: Seq<usize>,
    t: Tally,
    node: int,
    k: int,
    agg: usize,
) -> (Tally, usize)
    decreases count_below(t.marks.len() as int, pending(t.marks)), 1nat, edges[node].len() - k,
    when 0 <= k
    via tally_preds_decreases
{
    if k >= edges[node].len() {
        (t, agg)
    } else {
        let p = edges[node][k] as int;
        if p < t.marks.len() && t.marks[p] == 0 {
            let sub = carried(t, tally_node(edges, own, t, p));
            tally_preds(edges, own, sub, node, k + 1, capped(agg + sub.totals[p]))
        } else if t.marks[p] == 2 {
            tally_preds(edges, own, t, node, k + 1, capped(agg + t.totals[p]))
        } else {
            tally_preds(edges, own, t, node, k + 1, agg)
        }
    }
}

#[via_fn]
proof fn tally_node_decreases(edges: Seq<Seq<usize>>, own: Seq<usize>, t: Tally, node: int) {
    let begun = t.marks.update(node, 1u8);
    assert forall|i: int| 0 <= i < t.marks.len() && i != node implies #[trigger] pending(begun)(i)
        == pending(t.marks)(i) by {}
    lemma_count_flip(t.marks.len() as int, pending(begun), pending(t.marks), node);
}

#[via_fn]
proof fn tally_preds_decreases(
    edges: Seq<Seq<usize>>,
    own: Seq<usize>,
    t: Tally,
    node: int,
    k: int,
    agg: usize,
) {
    assert forall|x: Tally|
        count_below(t.marks.len() as int, pending((#[trigger] carried(t, x)).marks)) <= count_below(
            t.marks.len() as int,
            pending(t.marks),
        ) by {
        lemma_count_le(t.marks.len() as int, pending(carried(t, x).marks), pending(t.marks));
    }
}

/// The tally of an evaluation from `node` in which no node has been
/// looked at before.
pub open spec fn evaluation<T>(nodes: Seq<Node<T>>, node: usize) -> Tally {
    tally_node(
        edges_of(nodes),
        own_costs_of(nodes),
        Tally { marks: Seq::new(nodes.len(), |i: int| 0u8), totals: totals_of(nodes) },
        node as int,
    )
}

/// What holds of the marks of a run: every mark is 0 (not evaluated), 1
/// (under way) or 2 (done), and the predecessors of a node that is done
/// have all been looked at.
pub open spec fn marks_ok(edges: Seq<Seq<usize>>, state: Seq<u8>) -> bool {
    &&& state.len() == edges.len()
    &&& forall|i: int| 0 <= i < state.len() ==> #[trigger] state[i] <= 2
    &&& forall|x: int, k: int|
        0 <= x < edges.len() && state[x] == 2 && 0 <= k < edges[x].len() ==> state[(
        #[trigger] edges[x][k]) as int] != 0
}

/// If `x` is done, it is settled and its predecessors are all done.
pub open spec fn done_ok<T>(nodes: Seq<Node<T>>, state: Seq<u8>, x: int) -> bool {
    state[x] == 2 ==> settled(nodes, x) && forall|k: int|
        0 <= k < nodes[x].predecessors@.len() ==> state[(
        #[trigger] nodes[x].predecessors@[k]) as int] == 2
}

/// Every node that is done is settled, and so are all its predecessors.
pub open spec fn done_settled<T>(nodes: Seq<Node<T>>, state: Seq<u8>) -> bool {
    forall|x: int| 0 <= x < nodes.len() ==> #[trigger] done_ok(nodes, state, x)
}

/// No node under way ranks below `floor`.
pub open spec fn under_way_above(state: Seq<u8>, rank: Seq<nat>, floor: nat) -> bool {
    forall|x: int| 0 <= x < state.len() && (#[trigger] state[x]) == 1 ==> rank[x] >= floor
}

/// How mark and cost of node `i` at the end of an evaluation from `node`
/// relate to those at its start: a node that had been looked at is as it
/// was; another one is as it was, or done, below `node`, and costs no less
/// than it costs alone.
pub open spec fn progress_at<T>(
    old_nodes: Seq<Node<T>>,
    new_nodes: Seq<Node<T>>,
    old_state: Seq<u8>,
    new_state: Seq<u8>,
    node: usize,
    i: int,
) -> bool {
    if old_state[i] != 0 {
        new_state[i] == old_state[i] && new_nodes[i].dag_cost == old_nodes[i].dag_cost
    } else {
        ||| new_state[i] == 0 && new_nodes[i].dag_cost == old_nodes[i].dag_cost
        ||| new_state[i] == 2 && new_nodes[i].dag_cost >= new_nodes[i].cost && reachable(
            edges_of(old_nodes),
            node,
            i as usize,
        )
    }
}

/// [`progress_at`] for every node.
pub open spec fn progress<T>(
    old_nodes: Seq<Node<T>>,
    new_nodes: Seq<Node<T>>,
    old_state: Seq<u8>,
    new_state: Seq<u8>,
    node: usize,
) -> bool {
    forall|i: int|
        0 <= i < old_nodes.len() ==> #[trigger] progress_at(
            old_nodes,
            new_nodes,
            old_state,
            new_state,
            node,
            i,
        )
}

/// Evaluates `node` and, through it, every node below it that has not been
/// looked at in this run.
fn evaluate<T>(
    nodes: &mut Graph<T>,
    state: &mut Vec<u8>,
    node: usize,
    Ghost(rank): Ghost<Seq<nat>>,
    Ghost(top): Ghost<usize>,
) -> (total: usize)
    requires
        old(nodes).wf(),
        node < old(nodes)@.len(),
        marks_ok(edges_of(old(nodes)@), old(state)@),
        old(state)@[node as int] == 0,
        reachable(edges_of(old(nodes)@), top, node),
        ranked_below(edges_of(old(nodes)@), top, rank) ==> done_settled(old(nodes)@, old(state)@)
            && under_way_above(old(state)@, rank, rank[node as int] + 1),
    ensures
        final(nodes).wf(),
        same_but_costs(old(nodes)@, final(nodes)@),
        marks_ok(edges_of(old(nodes)@), final(state)@),
        progress(old(nodes)@, final(nodes)@, old(state)@, final(state)@, node),
        final(state)@[node as int] == 2,
        ranked_below(edges_of(old(nodes)@), top, rank) ==> done_settled(final(nodes)@, final(state)@),
        total == final(nodes)@[node as int].dag_cost,
        (Tally { marks: final(state)@, totals: totals_of(final(nodes)@) }) == tally_node(
            edges_of(old(nodes)@),
            own_costs_of(old(nodes)@),
            Tally { marks: old(state)@, totals: totals_of(old(nodes)@) },
            node as int,
        ),
    decreases count_below(old(nodes)@.len() as int, pending(old(state)@)),
{
    let ghost edges = edges_of(nodes@);
    let ghost n = nodes@.len() as int;
    let ghost list = edges[node as int];
    let ghost own = own_costs_of(nodes@);
    state[node] = 1;
    let ghost goal = tally_preds(
        edges,
        own,
        Tally { marks: state@, totals: totals_of(nodes@) },
        node as int,
        0,
        own[node as int],
    );
    proof {
        let p = pending(state@);
        let q = pending(old(state)@);
        assert forall|i: int| 0 <= i < n && i != node implies #[trigger] p(i) == q(i) by {}
        lemma_count_flip(n, p, q, node as int);
        assert(list.no_duplicates());
        assert forall|i: int| 0 <= i < n implies #[trigger] progress_at(
            old(nodes)@,
            nodes@,
            old(state)@,
            state@.update(node as int, 0),
            node,
            i,
        ) by {}
        if ranked_below(edges, top, rank) {
            assert forall|x: int| 0 <= x < n implies #[trigger] done_ok(nodes@, state@, x) by {
                assert(done_ok(old(nodes)@, old(state)@, x));
                if state@[x] == 2 {
                    let preds = nodes@[x].predecessors@;
                    assert forall|j: int| 0 <= j < preds.len() implies state@[(
                    #[trigger] preds[j]) as int] == 2 by {
                        assert(preds == edges[x]);
                        assert(edges[x].no_duplicates());
                        assert(edges[x][j] < n);
                        assert(old(state)@[old(nodes)@[x].predecessors@[j] as int] == 2);
                    }
                }
            }
        }
    }
    let mut agg: usize = nodes.nodes[node].cost;
    let count = nodes.nodes[node].predecessors.len();
    let mut k: usize = 0;
    while k < count
        invariant
            well_formed(old(nodes)@),
            nodes.wf(),
            same_but_costs(old(nodes)@, nodes@),
            edges == edges_of(old(nodes)@),
            n == nodes@.len(),
            node < n,
            reachable(edges, top, node),
            list == edges[node as int],
            count == list.len(),
            k <= count,
            marks_ok(edges, state@),
            state@[node as int] == 1,
            old(state)@[node as int] == 0,
            old(state)@.len() == n,
            progress(old(nodes)@, nodes@, old(state)@, state@.update(node as int, 0), node),
            forall|j: int| 0 <= j < k ==> state@[(#[trigger] list[j]) as int] != 0,
            agg >= nodes@[node as int].cost,
            ranked_below(edges, top, rank) ==> {
                &&& done_settled(nodes@, state@)
                &&& under_way_above(state@, rank, rank[node as int])
                &&& forall|j: int| 0 <= j < k ==> state@[(#[trigger] list[j]) as int] == 2
                &&& agg == capped(nodes@[node as int].cost + sum_costs(nodes@, list.take(k as int)))
            },
            count_below(n, pending(state@)) < count_below(n, pending(old(state)@)),
            own == own_costs_of(old(nodes)@),
            tally_preds(
                edges,
                own,
                Tally { marks: state@, totals: totals_of(nodes@) },
                node as int,
                k as int,
                agg,
            ) == goal,
        decreases count - k,
    {
        let p = nodes.nodes[node].predecessors[k];
        let ghost nodes_before = nodes@;
        let ghost state_before = state@;
        proof {
            assert(nodes@[node as int].predecessors@ == list);
            assert(list[k as int] == p);
            assert(p < n && p != node);
            assert(list.take(k + 1).drop_last() =~= list.take(k as int));
            assert(list.take(k + 1).last() == p);
            lemma_costs_keep_wf(old(nodes)@, nodes@);
            if ranked_below(edges, top, rank) {
                assert(rank[edges[node as int][k as int] as int] < rank[node as int]);
            }
        }
        if state[p] == 0 {
            proof {
                assert(own_costs_of(nodes_before) =~= own);
            }
            proof {
                lemma_reachable_step(edges, top, node, p);
            }
            let c = evaluate(nodes, state, p, Ghost(rank), Ghost(top));
            proof {
                let t = Tally { marks: state_before, totals: totals_of(nodes_before) };
                let sub = Tally { marks: state@, totals: totals_of(nodes@) };
                assert(carried(t, sub) =~~= sub) by {
                    assert forall|i: int| 0 <= i < n implies #[trigger] carried(t, sub).marks[i]
                        == sub.marks[i] by {
                        assert(progress_at(nodes_before, nodes@, state_before, state@, p, i));
                    }
                }
                assert forall|i: int| 0 <= i < n && #[trigger] pending(state@)(i) implies pending(
                    state_before,
                )(i) by {
                    assert(progress_at(nodes_before, nodes@, state_before, state@, p, i));
                }
                lemma_count_le(n, pending(state@), pending(state_before));
                same_but_costs_trans(old(nodes)@, nodes_before, nodes@);
                assert(progress_at(nodes_before, nodes@, state_before, state@, p, node as int));
                assert forall|i: int| 0 <= i < n implies #[trigger] progress_at(
                    old(nodes)@,
                    nodes@,
                    old(state)@,
                    state@.update(node as int, 0),
                    node,
                    i,
                ) by {
                    assert(progress_at(
                        old(nodes)@,
                        nodes_before,
                        old(state)@,
                        state_before.update(node as int, 0),
                        node,
                        i,
                    ));
                    assert(progress_at(nodes_before, nodes@, state_before, state@, p, i));
                    if state_before[i] == 0 && state@[i] == 2 {
                        lemma_reachable_through(edges, node, p, i as usize);
                    }
                }
                assert forall|j: int| 0 <= j < k + 1 implies state@[(#[trigger] list[j]) as int]
                    != 0 by {
                    assert(progress_at(
                        nodes_before,
                        nodes@,
                        state_before,
                        state@,
                        p,
                        list[j] as int,
                    ));
                }
                if ranked_below(edges, top, rank) {
                    assert forall|j: int| 0 <= j < k + 1 implies state@[(
                    #[trigger] list[j]) as int] == 2 by {
                        assert(progress_at(
                            nodes_before,
                            nodes@,
                            state_before,
                            state@,
                            p,
                            list[j] as int,
                        ));
                    }
                    assert forall|j: int| 0 <= j < list.take(k as int).len() implies nodes_before[(
                    #[trigger] list.take(k as int)[j]) as int].dag_cost == nodes@[list.take(
                        k as int,
                    )[j] as int].dag_cost by {
                        assert(state_before[list[j] as int] == 2);
                        assert(progress_at(
                            nodes_before,
                            nodes@,
                            state_before,
                            state@,
                            p,
                            list[j] as int,
                        ));
                    }
                    lemma_sum_costs_same(nodes_before, nodes@, list.take(k as int));
                    assert forall|x: int| 0 <= x < n && (#[trigger] state@[x]) == 1 implies rank[x]
                        >= rank[node as int] by {
                        assert(progress_at(nodes_before, nodes@, state_before, state@, p, x));
                    }
                }
            }
            agg = add_capped(agg, c);
        } else if state[p] == 2 {
            agg = add_capped(agg, nodes.nodes[p].dag_cost);
        } else {
            proof {
                assert(state@[p as int] == 1);
                if ranked_below(edges, top, rank) {
                    assert(rank[p as int] >= rank[node as int]);
                }
            }
        }
        k = k + 1;
    }
    let ghost nodes_before = nodes@;
    let ghost state_before = state@;
    nodes.nodes[node].dag_cost = agg;
    state[node] = 2;
    proof {
        let new = nodes@;
        assert(totals_of(new) =~= totals_of(nodes_before).update(node as int, agg));
        assert(totals_of(old(nodes)@) =~= totals_of(old(nodes)@));
        assert((Tally { marks: state@, totals: totals_of(new) }) =~~= tally_node(
            edges,
            own,
            Tally { marks: old(state)@, totals: totals_of(old(nodes)@) },
            node as int,
        ));
        assert(list.take(count as int) =~= list);
        assert(same_but_costs(old(nodes)@, new));
        lemma_costs_keep_wf(old(nodes)@, new);
        lemma_reachable_self(edges, node);
        assert forall|x: int, j: int|
            0 <= x < edges.len() && state@[x] == 2 && 0 <= j < edges[x].len() implies state@[(
        #[trigger] edges[x][j]) as int] != 0 by {
            if x == node {
                assert(edges[x][j] == list[j]);
            } else {
                assert(state_before[edges[x][j] as int] != 0);
            }
        }
        assert forall|i: int| 0 <= i < n implies #[trigger] progress_at(
            old(nodes)@,
            new,
            old(state)@,
            state@,
            node,
            i,
        ) by {
            assert(progress_at(
                old(nodes)@,
                nodes_before,
                old(state)@,
                state_before.update(node as int, 0),
                node,
                i,
            ));
        }
        if ranked_below(edges, top, rank) {
            assert forall|x: int| 0 <= x < new.len() implies #[trigger] done_ok(new, state@, x) by {
                if state@[x] == 2 {
                    let preds = new[x].predecessors@;
                    assert(preds == edges[x]);
                    if x == node {
                        assert forall|j: int| 0 <= j < preds.len() implies state@[(
                        #[trigger] preds[j]) as int] == 2 by {
                            assert(list[j] != node);
                        }
                    } else {
                        assert(done_ok(nodes_before, state_before, x));
                        assert forall|j: int| 0 <= j < preds.len() implies state@[(
                        #[trigger] preds[j]) as int] == 2 by {
                            assert(state_before[nodes_before[x].predecessors@[j] as int] == 2);
                        }
                    }
                    // The cost written to `node` is read by no sum over the
                    // predecessors of a node that is done.
                    assert forall|j: int| 0 <= j < preds.len() implies nodes_before[(
                    #[trigger] preds[j]) as int].dag_cost == new[preds[j] as int].dag_cost by {
                        assert(state@[preds[j] as int] == 2);
                        assert(state_before[preds[j] as int] == 2);
                    }
                    lemma_sum_costs_same(nodes_before, new, preds);
                }
            }
        }
    }
    agg
}

/// Costs that change only costs, twice over, change only costs.
pub proof fn same_but_costs_trans<T>(a: Seq<Node<T>>, b: Seq<Node<T>>, c: Seq<Node<T>>)
    requires
        same_but_costs(a, b),
        same_but_costs(b, c),
    ensures
        same_but_costs(a, c),
{
}

/// What an evaluation from `node` leaves: a node below `node` costs no less
/// than it costs alone and, where the edges below `node` hold no cycle, is settled; the
/// cost of any other node is as it was.
pub open spec fn evaluated<T>(old: Seq<Node<T>>, new: Seq<Node<T>>, node: usize) -> bool {
    forall|v: usize|
        v < old.len() ==> if reachable(edges_of(old), node, v) {
            (#[trigger] new[v as int]).dag_cost >= new[v as int].cost && (acyclic_below(
            edges_of(old),
            node,
        )
                ==> settled(new, v as int))
        } else {
            new[v as int].dag_cost == old[v as int].dag_cost
        }
}

/// After an evaluation from `node`, a node below it costs in all no less
/// than alone; and where the edges below `node` hold no cycle and the sum fits the
/// machine word, it costs in all what it costs alone plus what its
/// predecessors cost in all.
pub proof fn lemma_evaluated_cost<T>(old: Seq<Node<T>>, new: Seq<Node<T>>, node: usize, v: usize)
    requires
        evaluated(old, new, node),
        v < old.len(),
        reachable(edges_of(old), node, v),
    ensures
        new[v as int].dag_cost >= new[v as int].cost,
        acyclic_below(edges_of(old), node) && new[v as int].cost + sum_costs(
            new,
            new[v as int].predecessors@,
        )
            <= usize::MAX ==> new[v as int].dag_cost == new[v as int].cost + sum_costs(
            new,
            new[v as int].predecessors@,
        ),
{
    assert(new[v as int].dag_cost >= new[v as int].cost);
}

impl<T> Graph<T> {
    /// Computes the aggregate cost of `node` and of every node below it:
    /// the node's own cost plus the aggregate costs of its predecessors.
    /// Each node is evaluated once; an edge back to a node whose evaluation
    /// is under way adds nothing; a sum that does not fit stays at the
    /// largest machine word.
    pub fn compute_dag_cost(&mut self, node: usize) -> (total: usize)
        requires
            old(self).wf(),
            node < old(self)@.len(),
        ensures
            final(self).wf(),
            same_but_costs(old(self)@, final(self)@),
            total == final(self)@[node as int].dag_cost,
            totals_of(final(self)@) == evaluation(old(self)@, node).totals,
            evaluated(old(self)@, final(self)@, node),
    {
        let ghost edges = edges_of(self@);
        let ghost rank = choose|rank: Seq<nat>| ranked_below(edges, node, rank);
        proof {
            lemma_reachable_self(edges, node);
        }
        let n = self.nodes.len();
        let mut state: Vec<u8> = Vec::new();
        let mut i: usize = 0;
        while i < n
            invariant
                i <= n,
                state@.len() == i,
                forall|j: int| 0 <= j < i ==> #[trigger] state@[j] == 0,
            decreases n - i,
        {
            state.push(0);
            i = i + 1;
        }
        let ghost zeros = state@;
        proof {
            assert(zeros =~= Seq::new(self@.len(), |i: int| 0u8));
        }
        proof {
            assert forall|x: int| 0 <= x < n implies #[trigger] done_ok(self@, state@, x) by {}
        }
        let total = evaluate(self, &mut state, node, Ghost(rank), Ghost(node));
        proof {
            let new = self@;
            let inside = |u: usize| u < n && state@[u as int] == 2;
            assert forall|u: usize, k: int|
                u < edges.len() && inside(u) && 0 <= k < edges[u as int].len() implies inside(
                #[trigger] edges[u as int][k],
            ) by {
                assert(edges[u as int].no_duplicates());
                let w = edges[u as int][k];
                assert(progress_at(old(self)@, new, zeros, state@, node, w as int));
            }
            assert forall|v: usize| v < n implies if reachable(edges, node, v) {
                (#[trigger] new[v as int]).dag_cost >= new[v as int].cost && (acyclic_below(
                    edges,
                    node,
                )
                    ==> settled(new, v as int))
            } else {
                new[v as int].dag_cost == old(self)@[v as int].dag_cost
            } by {
                assert(progress_at(old(self)@, new, zeros, state@, node, v as int));
                if reachable(edges, node, v) {
                    lemma_closed_holds_reachable(edges, inside, node, v);
                    if acyclic_below(edges, node) {
                        assert(done_ok(new, state@, v as int));
                    }
                }
            }
        }
        total
    }
}

} // verus!
