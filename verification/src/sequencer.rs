//! The sequencer: a depth-first walk from the root that lists a node only
//! once it has been reached through every node that depends on it.
//!
//! The walk is first described as a function on plain values
//! ([`step`], [`run`]); [`topological_sort`] is proved to compute it.

use crate::counting::lemma_count_gap;
use crate::graph::{edges_of, fan_in, has_edge_to, well_formed, Graph};
use crate::node::Node;
use crate::walk::lemma_walk_lists_nodes;
use vstd::prelude::*;

verus! {

/// The state of one walk.
pub struct Traversal {
    /// How often each node has been taken from the stack and accepted.
    pub visits: Seq<nat>,
    /// Which nodes have been listed, in this walk or before it.
    pub emitted: Seq<bool>,
    /// Nodes still to be looked at; the last one is looked at next.
    pub stack: Seq<usize>,
    /// The nodes listed by this walk, in the order of listing.
    pub output: Seq<usize>,
}

/// The fan-in counters of all nodes, by index.
pub open spec fn counters_of<T>(nodes: Seq<Node<T>>) -> Seq<nat> {
    Seq::new(nodes.len(), |i: int| nodes[i].num_successors as nat)
}

/// The visit counters of all nodes, by index.
pub open spec fn visits_of<T>(nodes: Seq<Node<T>>) -> Seq<nat> {
    Seq::new(nodes.len(), |i: int| nodes[i].times_visited as nat)
}

/// The listed-flags of all nodes, by index.
pub open spec fn emitted_of<T>(nodes: Seq<Node<T>>) -> Seq<bool> {
    Seq::new(nodes.len(), |i: int| nodes[i].sorted)
}

/// The state in which a walk from `root` begins: the root is listed first
/// unless it has been listed before, and it alone is on the stack.
pub open spec fn start_of<T>(nodes: Seq<Node<T>>, root: usize) -> Traversal {
    Traversal {
        visits: visits_of(nodes),
        emitted: emitted_of(nodes).update(root as int, true),
        stack: seq![root],
        output: if nodes[root as int].sorted {
            Seq::<usize>::empty()
        } else {
            seq![root]
        },
    }
}

/// Every list has one entry per node, and edges and stack name nodes.
pub open spec fn traversal_ok(edges: Seq<Seq<usize>>, fan: Seq<nat>, s: Traversal) -> bool {
    &&& fan.len() == edges.len()
    &&& s.visits.len() == edges.len()
    &&& s.emitted.len() == edges.len()
    &&& forall|k: int| 0 <= k < s.stack.len() ==> (#[trigger] s.stack[k]) < edges.len()
    &&& forall|u: int, k: int|
        0 <= u < edges.len() && 0 <= k < edges[u].len() ==> (#[trigger] edges[u][k]) < edges.len()
}

/// One turn of the walk. The node `v` on top of the stack is taken off. If
/// it has not been visited more often than nodes depend on it, the visit is
/// counted; if the count has then reached the number of nodes that depend on
/// `v`, its predecessors go on the stack in their order; and if the count
/// equals that number and `v` is not listed yet, it is listed.
pub open spec fn step(edges: Seq<Seq<usize>>, fan: Seq<nat>, s: Traversal) -> Traversal {
    let v = s.stack.last() as int;
    let rest = s.stack.drop_last();
    if s.visits[v] <= fan[v] {
        let t = s.visits[v] + 1;
        let emit = t == fan[v] && !s.emitted[v];
        Traversal {
            visits: s.visits.update(v, t),
            emitted: if emit {
                s.emitted.update(v, true)
            } else {
                s.emitted
            },
            stack: if t >= fan[v] {
                rest + edges[v]
            } else {
                rest
            },
            output: if emit {
                s.output.push(v as usize)
            } else {
                s.output
            },
        }
    } else {
        Traversal { stack: rest, ..s }
    }
}

/// Visits that the first `k` nodes can still accept.
pub open spec fn budget(fan: Seq<nat>, visits: Seq<nat>, k: int) -> nat
    decreases k,
{
    if k <= 0 {
        0
    } else {
        budget(fan, visits, k - 1) + if visits[k - 1] <= fan[k - 1] {
            (fan[k - 1] + 1 - visits[k - 1]) as nat
        } else {
            0nat
        }
    }
}

/// Counting one accepted visit at `v` lowers the budget by one.
pub proof fn lemma_budget_visit(fan: Seq<nat>, visits: Seq<nat>, k: int, v: int)
    requires
        0 <= v < visits.len(),
        0 <= k <= visits.len(),
        visits.len() == fan.len(),
        visits[v] <= fan[v],
    ensures
        budget(fan, visits.update(v, visits[v] + 1), k) == budget(fan, visits, k) - if v < k {
            1int
        } else {
            0int
        },
    decreases k,
{
    if k > 0 {
        lemma_budget_visit(fan, visits, k - 1, v);
    }
}

/// A turn leaves the lists well-shaped.
pub proof fn lemma_step_ok(edges: Seq<Seq<usize>>, fan: Seq<nat>, s: Traversal)
    requires
        traversal_ok(edges, fan, s),
        s.stack.len() > 0,
    ensures
        traversal_ok(edges, fan, step(edges, fan, s)),
{
    let v = s.stack.last() as int;
    let rest = s.stack.drop_last();
    let next = step(edges, fan, s);
    assert(s.stack[s.stack.len() - 1] < edges.len());
    assert forall|k: int| 0 <= k < next.stack.len() implies (#[trigger] next.stack[k])
        < edges.len() by {
        if k < rest.len() {
            assert(next.stack[k] == s.stack[k]);
        } else {
            assert(next.stack[k] == edges[v][k - rest.len()]);
        }
    }
}

/// The walk, run to its end: turns are taken until the stack is empty.
pub open spec fn run(edges: Seq<Seq<usize>>, fan: Seq<nat>, s: Traversal) -> Traversal
    decreases budget(fan, s.visits, s.visits.len() as int), s.stack.len(),
    when traversal_ok(edges, fan, s)
    via run_decreases
{
    if s.stack.len() == 0 {
        s
    } else {
        run(edges, fan, step(edges, fan, s))
    }
}

#[via_fn]
proof fn run_decreases(edges: Seq<Seq<usize>>, fan: Seq<nat>, s: Traversal) {
    if s.stack.len() != 0 {
        let v = s.stack.last() as int;
        assert(s.stack[s.stack.len() - 1] < edges.len());
        if s.visits[v] <= fan[v] {
            lemma_budget_visit(fan, s.visits, s.visits.len() as int, v);
        }
    }
}

/// What a walk from `root` over `nodes` lists, and the counters it leaves.
pub open spec fn walk<T>(nodes: Seq<Node<T>>, root: usize) -> Traversal {
    run(edges_of(nodes), counters_of(nodes), start_of(nodes, root))
}

/// `new` differs from `old` at most in visit counters and listed-flags.
pub open spec fn same_but_traversal<T>(old: Seq<Node<T>>, new: Seq<Node<T>>) -> bool {
    &&& new.len() == old.len()
    &&& forall|i: int|
        0 <= i < old.len() ==> (#[trigger] new[i]) == (Node {
            times_visited: new[i].times_visited,
            sorted: new[i].sorted,
            ..old[i]
        })
}

/// Changing visit counters and listed-flags keeps a registry well-formed.
pub proof fn lemma_traversal_keeps_wf<T>(old: Seq<Node<T>>, new: Seq<Node<T>>)
    requires
        well_formed(old),
        same_but_traversal(old, new),
    ensures
        well_formed(new),
        edges_of(new) == edges_of(old),
        counters_of(new) == counters_of(old),
{
    assert(edges_of(new) =~= edges_of(old));
    assert(counters_of(new) =~= counters_of(old));
    assert forall|i: int, j: int| 0 <= i < j < new.len() implies (#[trigger] new[i]).path@
        != (#[trigger] new[j]).path@ by {
        assert(old[i].path@ != old[j].path@);
    }
    assert forall|v: usize| v < new.len() implies (#[trigger] new[v as int]).num_successors
        == fan_in(edges_of(new), v) by {
        assert(old[v as int].num_successors == fan_in(edges_of(old), v));
    }
}

/// Fewer nodes depend on a node than there are nodes.
pub proof fn lemma_counter_below_len<T>(nodes: Seq<Node<T>>, v: usize)
    requires
        well_formed(nodes),
        v < nodes.len(),
    ensures
        nodes[v as int].num_successors < nodes.len(),
{
    let e = edges_of(nodes);
    let p = has_edge_to(e, v);
    assert(!p(v as int)) by {
        if e[v as int].contains(v) {
            let k = choose|k: int| 0 <= k < e[v as int].len() && e[v as int][k] == v;
            assert(e[v as int][k] != v);
        }
    }
    lemma_count_gap(e.len() as int, p, v as int);
}

/// Lists the nodes below `node`: a depth-first walk over predecessor edges
/// that lists a node at the visit that completes its fan-in, so that every
/// node follows the nodes that depend on it. Read backwards, the result
/// puts every node after its predecessors. The order of each node's
/// predecessors decides between branches.
pub fn topological_sort<T>(nodes: &mut Graph<T>, node: usize) -> (sorted_nodes: Vec<usize>)
    requires
        old(nodes).wf(),
        node < old(nodes)@.len(),
    ensures
        final(nodes).wf(),
        same_but_traversal(old(nodes)@, final(nodes)@),
        sorted_nodes@ == walk(old(nodes)@, node).output,
        visits_of(final(nodes)@) == walk(old(nodes)@, node).visits,
        emitted_of(final(nodes)@) == walk(old(nodes)@, node).emitted,
        forall|i: int|
            0 <= i < sorted_nodes@.len() ==> (#[trigger] sorted_nodes@[i]) < final(nodes)@.len(),
{
    let ghost edges = edges_of(nodes@);
    let ghost fan = counters_of(nodes@);
    let ghost start = start_of(nodes@, node);
    let mut sorted_nodes: Vec<usize> = Vec::new();
    if !nodes.nodes[node].sorted {
        nodes.nodes[node].sorted = true;
        sorted_nodes.push(node);
    }
    let mut stack: Vec<usize> = Vec::new();
    stack.push(node);
    proof {
        assert(visits_of(nodes@) =~= start.visits);
        assert(emitted_of(nodes@) =~= start.emitted);
        assert(sorted_nodes@ =~= start.output);
        assert(stack@ =~= start.stack);
        assert forall|u: int, k: int|
            0 <= u < edges.len() && 0 <= k < edges[u].len() implies (#[trigger] edges[u][k])
            < edges.len() by {
            assert(edges[u].no_duplicates());
        }
    }
    proof {
        assert(traversal_ok(edges, fan, start));
    }
    while stack.len() > 0
        invariant
            well_formed(old(nodes)@),
            node < old(nodes)@.len(),
            start == start_of(old(nodes)@, node),
            traversal_ok(edges, fan, start),
            same_but_traversal(old(nodes)@, nodes@),
            edges == edges_of(old(nodes)@),
            fan == counters_of(old(nodes)@),
            traversal_ok(
                edges,
                fan,
                Traversal {
                    visits: visits_of(nodes@),
                    emitted: emitted_of(nodes@),
                    stack: stack@,
                    output: sorted_nodes@,
                },
            ),
            run(
                edges,
                fan,
                Traversal {
                    visits: visits_of(nodes@),
                    emitted: emitted_of(nodes@),
                    stack: stack@,
                    output: sorted_nodes@,
                },
            ) == run(edges, fan, start),
        decreases budget(fan, visits_of(nodes@), nodes@.len() as int), stack@.len(),
    {
        let ghost cur = Traversal {
            visits: visits_of(nodes@),
            emitted: emitted_of(nodes@),
            stack: stack@,
            output: sorted_nodes@,
        };
        let ghost before = nodes@;
        let v = stack.pop().unwrap();
        let ghost rest = stack@;
        proof {
            assert(cur.stack[cur.stack.len() - 1] == v);
            assert(rest == cur.stack.drop_last());
            lemma_step_ok(edges, fan, cur);
            lemma_counter_below_len(old(nodes)@, v);
            assert(nodes@[v as int].num_successors == old(nodes)@[v as int].num_successors);
            assert(nodes@[v as int].predecessors == old(nodes)@[v as int].predecessors);
            assert(edges[v as int] == nodes@[v as int].predecessors@);
        }
        if nodes.nodes[v].times_visited <= nodes.nodes[v].num_successors {
            nodes.nodes[v].incr_times_visited();
            if nodes.nodes[v].times_visited >= nodes.nodes[v].num_successors {
                let count = nodes.nodes[v].predecessors.len();
                let mut k: usize = 0;
                while k < count
                    invariant
                        k <= count,
                        v < nodes@.len(),
                        count == nodes@[v as int].predecessors@.len(),
                        stack@ == rest + nodes@[v as int].predecessors@.take(k as int),
                    decreases count - k,
                {
                    stack.push(nodes.nodes[v].predecessors[k]);
                    proof {
                        let preds = nodes@[v as int].predecessors@;
                        assert(preds.take(k + 1) == preds.take(k as int).push(preds[k as int]));
                        assert(stack@ =~= rest + preds.take(k + 1));
                    }
                    k = k + 1;
                }
                proof {
                    let preds = nodes@[v as int].predecessors@;
                    assert(preds.take(count as int) == preds);
                }
            }
            if nodes.nodes[v].is_discovered() {
                if !nodes.nodes[v].sorted {
                    nodes.nodes[v].sorted = true;
                    sorted_nodes.push(v);
                }
            }
            proof {
                lemma_budget_visit(fan, cur.visits, cur.visits.len() as int, v as int);
            }
        }
        proof {
            let next = Traversal {
                visits: visits_of(nodes@),
                emitted: emitted_of(nodes@),
                stack: stack@,
                output: sorted_nodes@,
            };
            let want = step(edges, fan, cur);
            assert(next.visits =~= want.visits);
            assert(next.emitted =~= want.emitted);
            assert(next.stack =~= want.stack);
            assert(next.output =~= want.output);
            assert(next == want);
        }
    }
    proof {
        lemma_traversal_keeps_wf(old(nodes)@, nodes@);
        assert forall|i: int| 0 <= i < start.output.len() implies (#[trigger] start.output[i])
            < edges.len() by {}
        lemma_walk_lists_nodes(edges, fan, start);
        let end = run(edges, fan, start);
        assert(sorted_nodes@ == end.output);
        assert forall|i: int| 0 <= i < sorted_nodes@.len() implies (#[trigger] sorted_nodes@[i])
            < nodes@.len() by {
            assert(end.output[i] < edges.len());
        }
    }
    sorted_nodes
}

} // verus!
