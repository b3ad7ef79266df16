//! What holds of every walk of the sequencer over a registry whose fan-in
//! counters are exact and whose root nothing depends on.

use crate::counting::{
    count_below, lemma_count_agree, lemma_count_flip, lemma_count_full, lemma_count_le,
    lemma_count_none, lemma_count_positive,
};
use crate::graph::{
    edges_of, edges_valid, fan_in, has_edge_to, lemma_push_contains, lemma_remove_contains,
    well_formed,
};
use crate::node::Node;
use crate::paths::{
    lemma_reachable_self, lemma_reachable_step,
    acyclic_below, closed_below, is_path, lemma_max_rank, lemma_root_is_free, max_rank,
    ranked_below, reachable,
};
use crate::sequencer::{
    budget, counters_of, emitted_of, lemma_budget_visit, lemma_step_ok, run, start_of, step,
    traversal_ok, visits_of, walk, Traversal,
};
use vstd::prelude::*;

verus! {

/// How often `v` occurs in `s`.
pub open spec fn occurrences(s: Seq<usize>, v: usize) -> nat
    decreases s.len(),
{
    if s.len() == 0 {
        0
    } else {
        occurrences(s.drop_last(), v) + if s.last() == v {
            1nat
        } else {
            0nat
        }
    }
}

/// Occurrences add up over concatenation.
pub proof fn lemma_occurrences_add(a: Seq<usize>, b: Seq<usize>, v: usize)
    ensures
        occurrences(a + b, v) == occurrences(a, v) + occurrences(b, v),
    decreases b.len(),
{
    if b.len() == 0 {
        assert(a + b == a);
    } else {
        assert((a + b).drop_last() == a + b.drop_last());
        lemma_occurrences_add(a, b.drop_last(), v);
    }
}

/// In a list without repeats an element occurs once or not at all.
pub proof fn lemma_occurrences_unique(s: Seq<usize>, v: usize)
    requires
        s.no_duplicates(),
    ensures
        occurrences(s, v) == if s.contains(v) {
            1nat
        } else {
            0nat
        },
    decreases s.len(),
{
    if s.len() > 0 {
        let init = s.drop_last();
        lemma_occurrences_unique(init, v);
        if init.contains(v) {
            let i = choose|i: int| 0 <= i < init.len() && init[i] == v;
            assert(s[i] == v);
        }
        if s.last() == v {
            assert(s[s.len() - 1] == v);
        }
        if s.contains(v) {
            let i = choose|i: int| 0 <= i < s.len() && s[i] == v;
            if i < init.len() {
                assert(init[i] == v);
            }
        }
    }
}

/// Whether `u` has put its predecessors on the stack.
pub open spec fn expanded(fan: Seq<nat>, visits: Seq<nat>, u: int) -> bool {
    visits[u] >= 1 && visits[u] >= fan[u]
}

/// The predicate "node `u` lies below the root, has `v` among its
/// predecessors and has put them on the stack".
pub open spec fn expanded_edge_to(
    edges: Seq<Seq<usize>>,
    fan: Seq<nat>,
    root: usize,
    visits: Seq<nat>,
    v: usize,
) -> spec_fn(int) -> bool {
    |u: int| edges[u].contains(v) && reachable(edges, root, u as usize) && expanded(fan, visits, u)
}

/// What a walk needs for its guarantees: valid edges, exact fan-in counters,
/// and a root that nothing depends on.
pub open spec fn sound_links(edges: Seq<Seq<usize>>, fan: Seq<nat>, root: usize) -> bool {
    &&& edges_valid(edges)
    &&& edges.len() <= usize::MAX
    &&& fan.len() == edges.len()
    &&& root < edges.len()
    &&& forall|v: usize| v < edges.len() ==> #[trigger] fan[v as int] == fan_in(edges, v)
    &&& fan[root as int] == 0
}

/// What holds between the turns of a walk from `root`;
/// `root_listed` says whether the walk listed the root when it began.
pub open spec fn walk_inv(
    edges: Seq<Seq<usize>>,
    fan: Seq<nat>,
    root: usize,
    root_listed: bool,
    s: Traversal,
) -> bool {
    &&& traversal_ok(edges, fan, s)
    &&& forall|v: usize|
        v < edges.len() && reachable(edges, root, v) ==> #[trigger] s.visits[v as int]
            + occurrences(s.stack, v) == count_below(
            edges.len() as int,
            expanded_edge_to(edges, fan, root, s.visits, v),
        ) + if v == root {
            1nat
        } else {
            0nat
        }
    &&& forall|v: usize|
        v < edges.len() && v != root && reachable(edges, root, v) ==> #[trigger] s.emitted[v as int]
            == expanded(fan, s.visits, v as int) && s.output.contains(v) == s.emitted[v as int]
    &&& s.emitted[root as int]
    &&& s.output.contains(root) == root_listed
    &&& root_listed ==> s.output.len() > 0 && s.output[0] == root
    &&& s.output.no_duplicates()
    &&& forall|i: int|
        0 <= i < s.output.len() ==> (#[trigger] s.output[i]) < edges.len() && reachable(
            edges,
            root,
            s.output[i],
        )
    &&& forall|i: int| 0 <= i < s.stack.len() ==> reachable(edges, root, #[trigger] s.stack[i])
    &&& forall|i: int, u: int|
        0 <= i < s.output.len() && 0 <= u < edges.len() && (#[trigger] edges[u]).contains(
            #[trigger] s.output[i],
        ) ==> u == root || exists|j: int| 0 <= j < i && s.output[j] == u
}

/// Whether `s` is a state in which a walk from `root` may begin: the root
/// alone is on the stack and counts as listed, it is in the output if
/// `root_listed`, and below the root no node has been visited and none
/// but the root is marked as listed.
pub open spec fn begins(
    edges: Seq<Seq<usize>>,
    fan: Seq<nat>,
    root: usize,
    root_listed: bool,
    s: Traversal,
) -> bool {
    &&& traversal_ok(edges, fan, s)
    &&& s.stack == seq![root]
    &&& s.output == if root_listed {
        seq![root]
    } else {
        Seq::<usize>::empty()
    }
    &&& s.emitted[root as int]
    &&& forall|v: usize|
        v < edges.len() && reachable(edges, root, v) ==> #[trigger] s.visits[v as int] == 0 && (v
            != root ==> !s.emitted[v as int])
}

/// Nothing depends on a node whose fan-in is zero.
pub proof fn lemma_no_edge_into(edges: Seq<Seq<usize>>, v: usize, u: int)
    requires
        fan_in(edges, v) == 0,
        0 <= u < edges.len(),
    ensures
        !edges[u].contains(v),
{
    if edges[u].contains(v) {
        assert(has_edge_to(edges, v)(u));
        lemma_count_positive(edges.len() as int, has_edge_to(edges, v), u);
    }
}

/// The invariant holds when a walk begins.
pub proof fn lemma_walk_inv_start(
    edges: Seq<Seq<usize>>,
    fan: Seq<nat>,
    root: usize,
    root_listed: bool,
    s: Traversal,
)
    requires
        sound_links(edges, fan, root),
        begins(edges, fan, root, root_listed, s),
    ensures
        walk_inv(edges, fan, root, root_listed, s),
{
    let n = edges.len() as int;
    lemma_reachable_self(edges, root);
    assert(s.stack.drop_last() =~= Seq::<usize>::empty());
    assert forall|v: usize| v < edges.len() && reachable(edges, root, v) implies #[trigger] s.visits[v as int]
        + occurrences(s.stack, v) == count_below(
        n,
        expanded_edge_to(edges, fan, root, s.visits, v),
    ) + if v == root {
        1nat
    } else {
        0nat
    } by {
        let q = expanded_edge_to(edges, fan, root, s.visits, v);
        assert forall|u: int| 0 <= u < n implies !#[trigger] q(u) by {
            if reachable(edges, root, u as usize) {
                assert(s.visits[u as usize as int] == 0);
            }
        }
        lemma_count_none(n, q);
        assert(occurrences(s.stack.drop_last(), v) == 0);
    }
    assert forall|v: usize|
        v < edges.len() && v != root && reachable(edges, root, v) implies #[trigger] s.emitted[v as int]
        == expanded(fan, s.visits, v as int) && s.output.contains(v) == s.emitted[v as int] by {
        assert(s.visits[v as int] == 0);
        if s.output.contains(v) {
            let i = choose|i: int| 0 <= i < s.output.len() && s.output[i] == v;
        }
    }
    if root_listed {
        assert(s.output[0] == root);
    }
    assert forall|i: int, u: int|
        0 <= i < s.output.len() && 0 <= u < edges.len() && (#[trigger] edges[u]).contains(
            #[trigger] s.output[i],
        ) implies u == root || exists|j: int| 0 <= j < i && s.output[j] == u by {
        assert(fan[root as int] == fan_in(edges, root));
        lemma_no_edge_into(edges, root, u);
    }
}

/// A turn keeps the invariant.
pub proof fn lemma_walk_inv_step(
    edges: Seq<Seq<usize>>,
    fan: Seq<nat>,
    root: usize,
    root_listed: bool,
    s: Traversal,
)
    requires
        sound_links(edges, fan, root),
        walk_inv(edges, fan, root, root_listed, s),
        s.stack.len() > 0,
    ensures
        walk_inv(edges, fan, root, root_listed, step(edges, fan, s)),
        s.visits[s.stack.last() as int] <= fan[s.stack.last() as int],
{
    let n = edges.len() as int;
    let v = s.stack.last();
    let rest = s.stack.drop_last();
    let next = step(edges, fan, s);
    assert(s.stack[s.stack.len() - 1] < edges.len());
    assert(reachable(edges, root, s.stack[s.stack.len() - 1]));
    lemma_step_ok(edges, fan, s);
    let p_old = expanded_edge_to(edges, fan, root, s.visits, v);
    // The visit is accepted, and `v` has not put its predecessors on the stack yet.
    assert(fan[v as int] == fan_in(edges, v));
    lemma_count_le(n, p_old, has_edge_to(edges, v));
    assert(s.visits[v as int] + occurrences(s.stack, v) == count_below(n, p_old) + if v == root {
        1nat
    } else {
        0nat
    });
    assert(s.visits[v as int] <= fan[v as int]);
    assert(!expanded(fan, s.visits, v as int));
    let t = s.visits[v as int] + 1;
    let grows = t >= fan[v as int];
    assert(edges[v as int].no_duplicates());
    assert forall|w: usize| w < edges.len() && reachable(edges, root, w) implies #[trigger] next.visits[w as int]
        + occurrences(next.stack, w) == count_below(n, expanded_edge_to(edges, fan, root, next.visits, w)) + if w == root {
        1nat
    } else {
        0nat
    } by {
        let p = expanded_edge_to(edges, fan, root, s.visits, w);
        let q = expanded_edge_to(edges, fan, root, next.visits, w);
        assert(s.visits[w as int] + occurrences(s.stack, w) == count_below(n, p) + if w == root {
            1nat
        } else {
            0nat
        });
        assert forall|u: int| 0 <= u < n && u != v implies #[trigger] p(u) == q(u) by {}
        if grows {
            lemma_occurrences_add(rest, edges[v as int], w);
            lemma_occurrences_unique(edges[v as int], w);
            if edges[v as int].contains(w) {
                assert(!p(v as int));
                assert(q(v as int));
                lemma_count_flip(n, p, q, v as int);
            } else {
                assert(p(v as int) == q(v as int));
                lemma_count_agree(n, p, q);
            }
        } else {
            assert(p(v as int) == q(v as int));
            lemma_count_agree(n, p, q);
        }
    }
    let emit = t == fan[v as int] && !s.emitted[v as int];
    if v != root {
        assert(s.emitted[v as int] == expanded(fan, s.visits, v as int));
        assert(s.output.contains(v) == s.emitted[v as int]);
    }
    assert(v == root ==> !emit);
    assert forall|w: usize|
        w < edges.len() && w != root && reachable(edges, root, w) implies #[trigger] next.emitted[w as int]
        == expanded(fan, next.visits, w as int) && next.output.contains(w)
        == next.emitted[w as int] by {
        assert(s.emitted[w as int] == expanded(fan, s.visits, w as int));
        assert(s.output.contains(w) == s.emitted[w as int]);
        if emit {
            lemma_push_contains(s.output, v, w);
        }
    }
    if emit {
        lemma_push_contains(s.output, v, root);
        assert forall|i: int, j: int|
            0 <= i < next.output.len() && 0 <= j < next.output.len() && i != j implies next.output[i]
            != next.output[j] by {
            if i < s.output.len() && j < s.output.len() {
                assert(s.output[i] != s.output[j]);
            } else if i < s.output.len() {
                assert(s.output.contains(s.output[i]));
            } else {
                assert(s.output.contains(s.output[j]));
            }
        }
        // Every node that holds `v` has put its predecessors on the stack.
        let q = expanded_edge_to(edges, fan, root, next.visits, v);
        let h = has_edge_to(edges, v);
        lemma_count_le(n, q, h);
        assert(next.visits[v as int] + occurrences(next.stack, v) == count_below(n, q) + 0nat);
        assert(count_below(n, q) == count_below(n, h));
        assert forall|i: int, u: int|
            0 <= i < next.output.len() && 0 <= u < edges.len() && (#[trigger] edges[u]).contains(
                #[trigger] next.output[i],
            ) implies u == root || exists|j: int| 0 <= j < i && next.output[j] == u by {
            if i < s.output.len() {
                assert(next.output[i] == s.output[i]);
                if u != root {
                    let j = choose|j: int| 0 <= j < i && s.output[j] == u;
                    assert(next.output[j] == u);
                }
            } else {
                assert(next.output[i] == v);
                assert(h(u));
                lemma_count_full(n, q, h, u);
                assert(q(u));
                assert(u != v) by {
                    if u == v {
                        let k = choose|k: int|
                            0 <= k < edges[v as int].len() && edges[v as int][k] == v;
                        assert(edges[v as int][k] != v as int);
                    }
                }
                assert(expanded(fan, s.visits, u));
                if u != root {
                    assert(s.emitted[u as usize as int] == expanded(fan, s.visits, u));
                    assert(s.output.contains(u as usize));
                    let j = choose|j: int| 0 <= j < s.output.len() && s.output[j] == u as usize;
                    assert(next.output[j] == u);
                }
            }
        }
        assert forall|i: int| 0 <= i < next.output.len() implies (#[trigger] next.output[i])
            < edges.len() && reachable(edges, root, next.output[i]) by {
            if i < s.output.len() {
                assert(next.output[i] == s.output[i]);
            }
        }
        if root_listed {
            assert(next.output[0] == s.output[0]);
        }
    }
    assert forall|i: int| 0 <= i < next.stack.len() implies reachable(
        edges,
        root,
        #[trigger] next.stack[i],
    ) by {
        if i < rest.len() {
            assert(next.stack[i] == s.stack[i]);
        } else {
            let k = i - rest.len();
            assert(next.stack[i] == edges[v as int][k]);
            assert(edges[v as int].contains(edges[v as int][k]));
            lemma_reachable_step(edges, root, v, edges[v as int][k]);
        }
    }
}

/// The invariant holds when a walk has ended.
pub proof fn lemma_walk_inv_run(
    edges: Seq<Seq<usize>>,
    fan: Seq<nat>,
    root: usize,
    root_listed: bool,
    s: Traversal,
)
    requires
        sound_links(edges, fan, root),
        walk_inv(edges, fan, root, root_listed, s),
    ensures
        walk_inv(edges, fan, root, root_listed, run(edges, fan, s)),
        run(edges, fan, s).stack.len() == 0,
    decreases budget(fan, s.visits, s.visits.len() as int), s.stack.len(),
{
    if s.stack.len() != 0 {
        lemma_walk_inv_step(edges, fan, root, root_listed, s);
        lemma_budget_visit(fan, s.visits, s.visits.len() as int, s.stack.last() as int);
        lemma_walk_inv_run(edges, fan, root, root_listed, step(edges, fan, s));
    }
}

/// Below `root` no node has been visited, and none but perhaps the root
/// is marked as listed.
pub open spec fn fresh_below<T>(nodes: Seq<Node<T>>, root: usize) -> bool {
    forall|i: int|
        0 <= i < nodes.len() && reachable(edges_of(nodes), root, i as usize) ==> (
        #[trigger] nodes[i]).times_visited == 0 && (i != root ==> !nodes[i].sorted)
}

/// A walk over a well-formed registry in a fresh state, from a root that
/// nothing depends on, ends with an empty stack and with the invariant.
pub proof fn lemma_fresh_walk<T>(nodes: Seq<Node<T>>, root: usize)
    requires
        well_formed(nodes),
        root < nodes.len(),
        nodes[root as int].num_successors == 0,
        fresh_below(nodes, root),
    ensures
        sound_links(edges_of(nodes), counters_of(nodes), root),
        walk_inv(
            edges_of(nodes),
            counters_of(nodes),
            root,
            !nodes[root as int].sorted,
            walk(nodes, root),
        ),
        walk(nodes, root).stack.len() == 0,
{
    let edges = edges_of(nodes);
    let fan = counters_of(nodes);
    let listed = !nodes[root as int].sorted;
    assert forall|v: usize| v < edges.len() implies #[trigger] fan[v as int] == fan_in(
        edges,
        v,
    ) by {
        assert(nodes[v as int].num_successors == fan_in(edges, v));
    }
    let s = start_of(nodes, root);
    assert forall|u: int, k: int|
        0 <= u < edges.len() && 0 <= k < edges[u].len() implies (#[trigger] edges[u][k])
        < edges.len() by {
        assert(edges[u].no_duplicates());
    }
    assert forall|v: usize| v < edges.len() && reachable(edges, root, v) implies #[trigger] s.visits[v as int]
        == 0 && (v != root ==> !s.emitted[v as int]) by {
        assert(nodes[v as int].times_visited == 0);
    }
    assert(begins(edges, fan, root, listed, s));
    lemma_walk_inv_start(edges, fan, root, listed, s);
    lemma_walk_inv_run(edges, fan, root, listed, s);
}

/// At the end of a walk, every node below the root has put its
/// predecessors on the stack, provided the edges below the root hold no
/// cycle and nothing from outside holds a node below the root.
pub proof fn lemma_reached_is_expanded(
    edges: Seq<Seq<usize>>,
    fan: Seq<nat>,
    root: usize,
    root_listed: bool,
    s: Traversal,
    rank: Seq<nat>,
    v: usize,
)
    requires
        sound_links(edges, fan, root),
        walk_inv(edges, fan, root, root_listed, s),
        s.stack.len() == 0,
        ranked_below(edges, root, rank),
        closed_below(edges, root),
        v < edges.len(),
        reachable(edges, root, v),
    ensures
        expanded(fan, s.visits, v as int),
    decreases max_rank(rank, rank.len() as int) - rank[v as int],
{
    let n = edges.len() as int;
    lemma_max_rank(rank, n, v as int);
    let q = expanded_edge_to(edges, fan, root, s.visits, v);
    let h = has_edge_to(edges, v);
    assert(s.visits[v as int] + occurrences(s.stack, v) == count_below(n, q) + if v == root {
        1nat
    } else {
        0nat
    });
    if v != root {
        let p = choose|p: Seq<usize>| is_path(edges, p) && p[0] == root && p[p.len() - 1] == v;
        let last = p.len() - 1;
        assert(edges[p[last - 1] as int].contains(p[last]));
        assert(h(p[last - 1] as int));
        lemma_count_positive(n, h, p[last - 1] as int);
        assert forall|u: int| 0 <= u < n && #[trigger] h(u) implies q(u) by {
            let k = choose|k: int| 0 <= k < edges[u].len() && edges[u][k] == v;
            assert(reachable(edges, root, edges[u][k]));
            assert(reachable(edges, root, u as usize));
            assert(rank[edges[u][k] as int] < rank[u]);
            lemma_max_rank(rank, n, u);
            lemma_reached_is_expanded(edges, fan, root, root_listed, s, rank, u as usize);
        }
        lemma_count_le(n, h, q);
        lemma_count_le(n, q, h);
        assert(fan[v as int] == fan_in(edges, v));
    }
}

/// Read backwards, what the sequencer lists puts every predecessor strictly
/// before the node that has it: if the node at position `a` of the reversed
/// output has the node at position `b` among its predecessors, then `b < a`.
pub proof fn lemma_predecessors_come_first<T>(nodes: Seq<Node<T>>, root: usize, a: int, b: int)
    requires
        well_formed(nodes),
        root < nodes.len(),
        nodes[root as int].num_successors == 0,
        fresh_below(nodes, root),
        0 <= a < walk(nodes, root).output.len(),
        0 <= b < walk(nodes, root).output.len(),
        walk(nodes, root).output.reverse()[a] < nodes.len(),
        nodes[walk(nodes, root).output.reverse()[a] as int].predecessors@.contains(
            walk(nodes, root).output.reverse()[b],
        ),
    ensures
        b < a,
{
    let edges = edges_of(nodes);
    let fan = counters_of(nodes);
    let end = walk(nodes, root);
    let out = end.output;
    lemma_fresh_walk(nodes, root);
    let i = out.len() - 1 - b;
    let x = out.len() - 1 - a;
    let u = out[x];
    assert(out.reverse()[a] == out[x]);
    assert(out.reverse()[b] == out[i]);
    assert(edges[u as int].contains(out[i]));
    if u == root {
        assert(out.contains(root));
        assert(out[0] == root);
        assert(fan[root as int] == fan_in(edges, root));
        lemma_no_edge_into(edges, root, u as int);
    } else {
        let j = choose|j: int| 0 <= j < i && out[j] == u as int;
    }
}

/// Every node below the root is listed exactly once by a walk that begins
/// in a fresh state, provided the edges below the root hold no cycle and
/// nothing from outside holds a node below the root. (A root that was
/// marked as listed beforehand is not listed.)
pub proof fn lemma_reachable_listed_once<T>(nodes: Seq<Node<T>>, root: usize, v: usize)
    requires
        well_formed(nodes),
        root < nodes.len(),
        fresh_below(nodes, root),
        acyclic_below(edges_of(nodes), root),
        closed_below(edges_of(nodes), root),
        v < nodes.len(),
        reachable(edges_of(nodes), root, v),
    ensures
        occurrences(walk(nodes, root).output, v) == if v == root && nodes[root as int].sorted {
            0nat
        } else {
            1nat
        },
{
    let edges = edges_of(nodes);
    let fan = counters_of(nodes);
    let end = walk(nodes, root);
    assert(nodes[root as int].num_successors == 0) by {
        assert forall|u: int| 0 <= u < edges.len() implies !#[trigger] has_edge_to(edges, root)(
            u,
        ) by {
            lemma_root_is_free(edges, root, u);
        }
        lemma_count_none(edges.len() as int, has_edge_to(edges, root));
        assert(nodes[root as int].num_successors == fan_in(edges, root));
    }
    lemma_fresh_walk(nodes, root);
    let rank = choose|rank: Seq<nat>| ranked_below(edges, root, rank);
    lemma_reached_is_expanded(edges, fan, root, !nodes[root as int].sorted, end, rank, v);
    lemma_occurrences_unique(end.output, v);
    if v != root {
        assert(end.emitted[v as int] == expanded(fan, end.visits, v as int));
        assert(end.output.contains(v) == end.emitted[v as int]);
    }
}

/// A walk that begins in a fresh state lists nodes below the root and
/// nothing else.
pub proof fn lemma_listed_lies_below<T>(nodes: Seq<Node<T>>, root: usize, i: int)
    requires
        well_formed(nodes),
        root < nodes.len(),
        nodes[root as int].num_successors == 0,
        fresh_below(nodes, root),
        0 <= i < walk(nodes, root).output.len(),
    ensures
        walk(nodes, root).output[i] < nodes.len(),
        reachable(edges_of(nodes), root, walk(nodes, root).output[i]),
{
    lemma_fresh_walk(nodes, root);
}

/// The predicate "node `i` lies below `root`".
pub open spec fn lies_below(edges: Seq<Seq<usize>>, root: usize) -> spec_fn(int) -> bool {
    |i: int| reachable(edges, root, i as usize)
}

/// A list that holds every node below `n` at which `p` holds, each once,
/// and nothing else, is as long as the count of these nodes.
pub proof fn lemma_len_is_count(out: Seq<usize>, n: int, p: spec_fn(int) -> bool)
    requires
        0 <= n <= usize::MAX,
        out.no_duplicates(),
        forall|i: int| 0 <= i < out.len() ==> (#[trigger] out[i]) < n,
        forall|v: usize| v < n ==> (out.contains(v) <==> #[trigger] p(v as int)),
    ensures
        out.len() == count_below(n, p),
    decreases n,
{
    if n == 0 {
        if out.len() > 0 {
            assert(out[0] < n);
        }
    } else {
        let last = (n - 1) as usize;
        if out.contains(last) {
            let j = choose|j: int| 0 <= j < out.len() && out[j] == last;
            let rest = out.remove(j);
            assert forall|v: usize| rest.contains(v) == (out.contains(v) && v != out[j]) by {
                lemma_remove_contains(out, j, v);
            }
            lemma_remove_contains(out, j, last);
            assert forall|i: int| 0 <= i < rest.len() implies (#[trigger] rest[i]) < n - 1 by {
                assert(rest.contains(rest[i]));
                let m = if i < j {
                    i
                } else {
                    i + 1
                };
                assert(rest[i] == out[m]);
            }
            lemma_len_is_count(rest, n - 1, p);
        } else {
            assert forall|i: int| 0 <= i < out.len() implies (#[trigger] out[i]) < n - 1 by {
                assert(out.contains(out[i]));
            }
            lemma_len_is_count(out, n - 1, p);
        }
    }
}

/// A walk that begins in a fresh state, with the root not marked, lists
/// as many nodes as lie below the root, provided the edges below the root
/// hold no cycle and nothing from outside holds a node below the root.
pub proof fn lemma_listed_count<T>(nodes: Seq<Node<T>>, root: usize)
    requires
        well_formed(nodes),
        root < nodes.len(),
        fresh_below(nodes, root),
        !nodes[root as int].sorted,
        acyclic_below(edges_of(nodes), root),
        closed_below(edges_of(nodes), root),
    ensures
        walk(nodes, root).output.len() == count_below(
            nodes.len() as int,
            lies_below(edges_of(nodes), root),
        ),
{
    let edges = edges_of(nodes);
    let out = walk(nodes, root).output;
    lemma_reachable_self(edges, root);
    lemma_reachable_listed_once(nodes, root, root);
    assert(nodes[root as int].num_successors == 0) by {
        assert forall|u: int| 0 <= u < edges.len() implies !#[trigger] has_edge_to(edges, root)(
            u,
        ) by {
            lemma_root_is_free(edges, root, u);
        }
        lemma_count_none(edges.len() as int, has_edge_to(edges, root));
        assert(nodes[root as int].num_successors == fan_in(edges, root));
    }
    lemma_fresh_walk(nodes, root);
    assert forall|v: usize| v < nodes.len() implies (out.contains(v) <==> #[trigger] lies_below(
        edges,
        root,
    )(v as int)) by {
        if reachable(edges, root, v) {
            lemma_reachable_listed_once(nodes, root, v);
            lemma_occurrences_unique(out, v);
        }
        if out.contains(v) {
            let i = choose|i: int| 0 <= i < out.len() && out[i] == v;
            lemma_listed_lies_below(nodes, root, i);
        }
    }
    lemma_len_is_count(out, nodes.len() as int, lies_below(edges, root));
}

/// No node is listed twice by a walk that begins in a fresh state.
pub proof fn lemma_listed_at_most_once<T>(nodes: Seq<Node<T>>, root: usize, v: usize)
    requires
        well_formed(nodes),
        root < nodes.len(),
        nodes[root as int].num_successors == 0,
        fresh_below(nodes, root),
    ensures
        occurrences(walk(nodes, root).output, v) <= 1,
{
    lemma_fresh_walk(nodes, root);
    lemma_occurrences_unique(walk(nodes, root).output, v);
}

/// What a walk lists depends on nothing but the edges in their order, the
/// fan-in counters and the traversal state: two registries that agree on
/// these are listed alike.
pub proof fn lemma_walk_deterministic<T, U>(a: Seq<Node<T>>, b: Seq<Node<U>>, root: usize)
    requires
        root < a.len(),
        edges_of(a) == edges_of(b),
        counters_of(a) == counters_of(b),
        visits_of(a) == visits_of(b),
        emitted_of(a) == emitted_of(b),
    ensures
        walk(a, root) == walk(b, root),
{
    assert(edges_of(a).len() == a.len());
    assert(edges_of(b).len() == b.len());
    assert(a[root as int].sorted == emitted_of(a)[root as int]);
    assert(b[root as int].sorted == emitted_of(b)[root as int]);
}

/// A node that is marked as listed when a walk begins is not listed by it.
pub proof fn lemma_walk_skips_listed(
    edges: Seq<Seq<usize>>,
    fan: Seq<nat>,
    s: Traversal,
    x: usize,
)
    requires
        traversal_ok(edges, fan, s),
        x < edges.len(),
        s.emitted[x as int],
        !s.output.contains(x),
    ensures
        !run(edges, fan, s).output.contains(x),
        run(edges, fan, s).emitted[x as int],
    decreases budget(fan, s.visits, s.visits.len() as int), s.stack.len(),
{
    if s.stack.len() != 0 {
        let v = s.stack.last();
        let next = step(edges, fan, s);
        assert(s.stack[s.stack.len() - 1] < edges.len());
        lemma_step_ok(edges, fan, s);
        if s.visits[v as int] <= fan[v as int] {
            lemma_budget_visit(fan, s.visits, s.visits.len() as int, v as int);
            if next.output != s.output {
                lemma_push_contains(s.output, v, x);
            }
        }
        lemma_walk_skips_listed(edges, fan, next, x);
    }
}

/// Everything that a walk lists is a node of the registry.
pub proof fn lemma_walk_lists_nodes(edges: Seq<Seq<usize>>, fan: Seq<nat>, s: Traversal)
    requires
        traversal_ok(edges, fan, s),
        forall|i: int| 0 <= i < s.output.len() ==> (#[trigger] s.output[i]) < edges.len(),
    ensures
        forall|i: int|
            0 <= i < run(edges, fan, s).output.len() ==> (#[trigger] run(edges, fan, s).output[i])
                < edges.len(),
    decreases budget(fan, s.visits, s.visits.len() as int), s.stack.len(),
{
    if s.stack.len() != 0 {
        let v = s.stack.last();
        let next = step(edges, fan, s);
        assert(s.stack[s.stack.len() - 1] < edges.len());
        lemma_step_ok(edges, fan, s);
        if s.visits[v as int] <= fan[v as int] {
            lemma_budget_visit(fan, s.visits, s.visits.len() as int, v as int);
        }
        assert forall|i: int| 0 <= i < next.output.len() implies (#[trigger] next.output[i])
            < edges.len() by {
            if i < s.output.len() {
                assert(next.output[i] == s.output[i]);
            }
        }
        lemma_walk_lists_nodes(edges, fan, next);
        assert(run(edges, fan, s) == run(edges, fan, next));
    } else {
        assert(run(edges, fan, s) == s);
    }
}

} // verus!
