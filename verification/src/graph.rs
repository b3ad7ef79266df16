//! The registry of nodes and the edges between them.
//!
//! A [`Graph`] owns every node of a build. Nodes are addressed by their
//! index, which never changes; index 0 is the root that the topics of a
//! document hang from. An edge from a node to one of its predecessors is
//! stored at the node and counted at the predecessor.

use crate::counting::{
    count_below, lemma_count_agree, lemma_count_bound, lemma_count_flip, lemma_count_none,
    lemma_count_positive,
};
use crate::node::Node;
use crate::text::{lemma_text_less_total, lemma_text_less_trans, string_less, text_less};
use vstd::prelude::*;

verus! {

/// The registry: every node loaded so far, the root first.
pub struct Graph<T> {
    pub nodes: Vec<Node<T>>,
}

impl<T> View for Graph<T> {
    type V = Seq<Node<T>>;

    open spec fn view(&self) -> Seq<Node<T>> {
        self.nodes@
    }
}

/// The predecessor lists of all nodes, by index.
pub open spec fn edges_of<T>(nodes: Seq<Node<T>>) -> Seq<Seq<usize>> {
    Seq::new(nodes.len(), |i: int| nodes[i].predecessors@)
}

/// The predicate "node `u` has `v` among its predecessors".
pub open spec fn has_edge_to(edges: Seq<Seq<usize>>, v: usize) -> spec_fn(int) -> bool {
    |u: int| edges[u].contains(v)
}

/// Number of nodes that have `v` among their predecessors.
pub open spec fn fan_in(edges: Seq<Seq<usize>>, v: usize) -> nat {
    count_below(edges.len() as int, has_edge_to(edges, v))
}

/// Every predecessor list names existing nodes other than its owner, each
/// at most once.
pub open spec fn edges_valid(edges: Seq<Seq<usize>>) -> bool {
    forall|u: int|
        0 <= u < edges.len() ==> (#[trigger] edges[u]).no_duplicates() && forall|k: int|
            0 <= k < edges[u].len() ==> (#[trigger] edges[u][k]) < edges.len() && edges[u][k] != u
}

/// Whether some node of `nodes` has the identity `id`.
pub open spec fn holds_id<T>(nodes: Seq<Node<T>>, id: Seq<char>) -> bool {
    exists|i: int| 0 <= i < nodes.len() && (#[trigger] nodes[i]).path@ == id
}

/// The index of the node with identity `id`.
pub open spec fn index_of_id<T>(nodes: Seq<Node<T>>, id: Seq<char>) -> int {
    choose|i: int| 0 <= i < nodes.len() && (#[trigger] nodes[i]).path@ == id
}

/// No two nodes share an identity.
pub open spec fn ids_unique<T>(nodes: Seq<Node<T>>) -> bool {
    forall|i: int, j: int|
        0 <= i < j < nodes.len() ==> (#[trigger] nodes[i]).path@ != (#[trigger] nodes[j]).path@
}

/// Every node's counter equals the number of nodes that hold it as a predecessor.
pub open spec fn counters_exact<T>(nodes: Seq<Node<T>>) -> bool {
    forall|v: usize|
        v < nodes.len() ==> (#[trigger] nodes[v as int]).num_successors == fan_in(
            edges_of(nodes),
            v,
        )
}

/// The invariant of a registry: a root exists, identities are unique, edges
/// are valid and free of repeats, and the fan-in counters are exact.
pub open spec fn well_formed<T>(nodes: Seq<Node<T>>) -> bool {
    &&& 1 <= nodes.len() <= usize::MAX
    &&& ids_unique(nodes)
    &&& edges_valid(edges_of(nodes))
    &&& counters_exact(nodes)
}

/// No node of a well-formed registry has a predecessor twice. Every
/// operation of the engine hands on a well-formed registry, so this holds
/// whatever has been loaded, linked, reduced or ordered.
pub proof fn lemma_no_duplicate_edges<T>(nodes: Seq<Node<T>>, v: int)
    requires
        well_formed(nodes),
        0 <= v < nodes.len(),
    ensures
        nodes[v].predecessors@.no_duplicates(),
{
    assert(edges_of(nodes)[v] == nodes[v].predecessors@);
}

/// The nodes of `list` stand in the order of their paths, rising strictly.
pub open spec fn path_order<T>(nodes: Seq<Node<T>>, list: Seq<usize>) -> bool {
    forall|i: int, j: int|
        0 <= i < j < list.len() ==> text_less(
            nodes[(#[trigger] list[i]) as int].path@,
            nodes[(#[trigger] list[j]) as int].path@,
        )
}

/// `new` is `old` with the edge from `node` to `pred` added. The
/// predecessors of `node` then stand in the order of their paths and are
/// the old ones and `pred`; `pred` is counted once more if it is new to
/// the list. Where the two are one node, `new` is `old`.
pub open spec fn with_edge<T>(old: Seq<Node<T>>, new: Seq<Node<T>>, node: int, pred: int) -> bool {
    if node != pred {
        &&& new.len() == old.len()
        &&& new[node].same_but_predecessors(&old[node])
        &&& path_order(old, new[node].predecessors@)
        &&& forall|v: usize|
            new[node].predecessors@.contains(v) <==> old[node].predecessors@.contains(v) || v
                == pred
        &&& new[pred] == (Node {
            num_successors: (old[pred].num_successors + if old[node].predecessors@.contains(
                pred as usize,
            ) {
                0int
            } else {
                1int
            }) as usize,
            ..old[pred]
        })
        &&& forall|j: int|
            0 <= j < old.len() && j != node && j != pred ==> #[trigger] new[j] == old[j]
    } else {
        new == old
    }
}

/// A list in the order of paths holds no node twice.
pub proof fn lemma_path_order_unique<T>(nodes: Seq<Node<T>>, list: Seq<usize>)
    requires
        path_order(nodes, list),
    ensures
        list.no_duplicates(),
{
    assert forall|i: int, j: int| 0 <= i < list.len() && 0 <= j < list.len() && i != j implies list[i]
        != list[j] by {
        lemma_text_less_total(nodes[list[i] as int].path@, nodes[list[i] as int].path@);
        if i < j {
            assert(text_less(nodes[list[i] as int].path@, nodes[list[j] as int].path@));
        } else {
            assert(text_less(nodes[list[j] as int].path@, nodes[list[i] as int].path@));
        }
    }
}

/// Putting the next node of `list` before the first node whose path does
/// not come before its own keeps an arrangement in the order of paths.
pub proof fn lemma_insert_by_path<T>(
    nodes: Seq<Node<T>>,
    list: Seq<usize>,
    prev: Seq<usize>,
    k: int,
    pos: int,
)
    requires
        ids_unique(nodes),
        list.no_duplicates(),
        forall|i: int| 0 <= i < list.len() ==> (#[trigger] list[i]) < nodes.len(),
        0 <= k < list.len(),
        prev.len() == k,
        path_order(nodes, prev),
        forall|v: usize| prev.contains(v) <==> list.take(k).contains(v),
        0 <= pos <= prev.len(),
        forall|i: int|
            0 <= i < pos ==> text_less(
                nodes[(#[trigger] prev[i]) as int].path@,
                nodes[list[k] as int].path@,
            ),
        pos < prev.len() ==> !text_less(
            nodes[prev[pos] as int].path@,
            nodes[list[k] as int].path@,
        ),
    ensures
        path_order(nodes, prev.insert(pos, list[k])),
        forall|v: usize| prev.insert(pos, list[k]).contains(v) <==> list.take(k + 1).contains(v),
{
    let x = list[k];
    let next = prev.insert(pos, x);
    let seen = list.take(k);
    let grown = list.take(k + 1);
    assert(grown =~= seen.push(x));
    assert forall|i: int| 0 <= i < prev.len() implies (#[trigger] prev[i]) != x && prev[i]
        < nodes.len() by {
        assert(prev.contains(prev[i]));
        let m = choose|m: int| 0 <= m < seen.len() && seen[m] == prev[i];
        assert(list[m] == prev[i]);
    }
    if pos < prev.len() {
        let y = prev[pos];
        assert(y != x);
        if y < x {
            assert(nodes[y as int].path@ != nodes[x as int].path@);
        } else {
            assert(nodes[x as int].path@ != nodes[y as int].path@);
        }
        lemma_text_less_total(nodes[y as int].path@, nodes[x as int].path@);
    }
    assert forall|i: int, j: int| 0 <= i < j < next.len() implies text_less(
        nodes[(#[trigger] next[i]) as int].path@,
        nodes[(#[trigger] next[j]) as int].path@,
    ) by {
        let a = if i < pos {
            i
        } else {
            i - 1
        };
        let b = if j < pos {
            j
        } else {
            j - 1
        };
        if i != pos && j != pos {
            assert(next[i] == prev[a] && next[j] == prev[b]);
        } else if j == pos {
            assert(next[i] == prev[i]);
        } else {
            assert(next[j] == prev[b]);
            if b > pos {
                assert(text_less(nodes[prev[pos] as int].path@, nodes[prev[b] as int].path@));
                lemma_text_less_trans(
                    nodes[x as int].path@,
                    nodes[prev[pos] as int].path@,
                    nodes[prev[b] as int].path@,
                );
            }
        }
    }
    assert forall|v: usize| next.contains(v) <==> grown.contains(v) by {
        if next.contains(v) {
            let i = choose|i: int| 0 <= i < next.len() && next[i] == v;
            if i == pos {
                assert(grown[k] == v);
            } else {
                let a = if i < pos {
                    i
                } else {
                    i - 1
                };
                assert(prev[a] == v);
                assert(prev.contains(v));
                let m = choose|m: int| 0 <= m < seen.len() && seen[m] == v;
                assert(grown[m] == v);
            }
        }
        if grown.contains(v) {
            let m = choose|m: int| 0 <= m < grown.len() && grown[m] == v;
            if m < k {
                assert(seen[m] == v);
                assert(prev.contains(v));
                let i = choose|i: int| 0 <= i < prev.len() && prev[i] == v;
                if i < pos {
                    assert(next[i] == v);
                } else {
                    assert(next[i + 1] == v);
                }
            } else {
                assert(next[pos] == v);
            }
        }
    }
}

/// The nodes of `list` in the order of their paths.
pub fn order_by_path<T>(nodes: &Graph<T>, list: &Vec<usize>) -> (out: Vec<usize>)
    requires
        ids_unique(nodes@),
        list@.no_duplicates(),
        forall|i: int| 0 <= i < list@.len() ==> (#[trigger] list@[i]) < nodes@.len(),
    ensures
        path_order(nodes@, out@),
        out@.no_duplicates(),
        out@.len() == list@.len(),
        forall|v: usize| out@.contains(v) <==> list@.contains(v),
{
    let mut out: Vec<usize> = Vec::new();
    let mut k: usize = 0;
    while k < list.len()
        invariant
            ids_unique(nodes@),
            list@.no_duplicates(),
            forall|i: int| 0 <= i < list@.len() ==> (#[trigger] list@[i]) < nodes@.len(),
            k <= list@.len(),
            out@.len() == k,
            path_order(nodes@, out@),
            forall|v: usize| out@.contains(v) <==> list@.take(k as int).contains(v),
        decreases list@.len() - k,
    {
        let x = list[k];
        let ghost prev = out@;
        proof {
            assert forall|i: int| 0 <= i < prev.len() implies (#[trigger] prev[i])
                < nodes@.len() by {
                assert(prev.contains(prev[i]));
                let seen = list@.take(k as int);
                let m = choose|m: int| 0 <= m < seen.len() && seen[m] == prev[i];
                assert(list@[m] == prev[i]);
            }
        }
        let mut pos: usize = 0;
        while pos < out.len() && string_less(&nodes.nodes[out[pos]].path, &nodes.nodes[x].path)
            invariant
                out@ == prev,
                x < nodes@.len(),
                pos <= prev.len(),
                forall|i: int| 0 <= i < prev.len() ==> (#[trigger] prev[i]) < nodes@.len(),
                forall|i: int|
                    0 <= i < pos ==> text_less(
                        nodes@[(#[trigger] prev[i]) as int].path@,
                        nodes@[x as int].path@,
                    ),
            decreases prev.len() - pos,
        {
            pos = pos + 1;
        }
        out.insert(pos, x);
        proof {
            lemma_insert_by_path(nodes@, list@, prev, k as int, pos as int);
        }
        k = k + 1;
    }
    proof {
        assert(list@.take(k as int) =~= list@);
        lemma_path_order_unique(nodes@, out@);
    }
    out
}

/// `new` is `old` with the predecessor at `index` taken out of `node`'s list.
pub open spec fn without_edge_at<T>(
    old: Seq<Node<T>>,
    new: Seq<Node<T>>,
    node: int,
    index: int,
) -> bool {
    let pred = old[node].predecessors@[index] as int;
    &&& new.len() == old.len()
    &&& new[node].predecessors@ == old[node].predecessors@.remove(index)
    &&& new[node].same_but_predecessors(&old[node])
    &&& new[pred] == (Node {
        num_successors: (old[pred].num_successors - 1) as usize,
        ..old[pred]
    })
    &&& forall|j: int| 0 <= j < old.len() && j != node && j != pred ==> #[trigger] new[j] == old[j]
}

/// The fan-in of `v` depends only on which lists contain `v`.
pub proof fn lemma_fan_in_same(old_e: Seq<Seq<usize>>, new_e: Seq<Seq<usize>>, v: usize)
    requires
        new_e.len() == old_e.len(),
        forall|u: int|
            0 <= u < old_e.len() ==> (#[trigger] new_e[u]).contains(v) == old_e[u].contains(v),
    ensures
        fan_in(new_e, v) == fan_in(old_e, v),
{
    let p = has_edge_to(old_e, v);
    let q = has_edge_to(new_e, v);
    assert forall|u: int| 0 <= u < old_e.len() implies #[trigger] p(u) == q(u) by {
        assert(new_e[u].contains(v) == old_e[u].contains(v));
    }
    lemma_count_agree(old_e.len() as int, p, q);
}

/// One more list containing `v` raises the fan-in of `v` by one.
pub proof fn lemma_fan_in_gain(
    old_e: Seq<Seq<usize>>,
    new_e: Seq<Seq<usize>>,
    node: int,
    v: usize,
)
    requires
        new_e.len() == old_e.len(),
        0 <= node < old_e.len(),
        !old_e[node].contains(v),
        new_e[node].contains(v),
        forall|u: int|
            0 <= u < old_e.len() && u != node ==> (#[trigger] new_e[u]).contains(v)
                == old_e[u].contains(v),
    ensures
        fan_in(new_e, v) == fan_in(old_e, v) + 1,
{
    let p = has_edge_to(old_e, v);
    let q = has_edge_to(new_e, v);
    assert forall|u: int| 0 <= u < old_e.len() && u != node implies #[trigger] p(u) == q(u) by {
        assert(new_e[u].contains(v) == old_e[u].contains(v));
    }
    lemma_count_flip(old_e.len() as int, p, q, node);
}

/// A node cannot be held by more nodes than there are.
pub proof fn lemma_fan_in_bound(edges: Seq<Seq<usize>>, v: usize)
    ensures
        fan_in(edges, v) <= edges.len(),
{
    lemma_count_bound(edges.len() as int, has_edge_to(edges, v));
}

/// In a registry with unique identities, the node with a given identity
/// is found under its index.
pub proof fn lemma_index_of_id<T>(nodes: Seq<Node<T>>, i: int)
    requires
        ids_unique(nodes),
        0 <= i < nodes.len(),
    ensures
        holds_id(nodes, nodes[i].path@),
        index_of_id(nodes, nodes[i].path@) == i,
{
    let id = nodes[i].path@;
    let k = index_of_id(nodes, id);
    assert(nodes[i].path@ == id);
    if k < i {
        assert(nodes[k].path@ != nodes[i].path@);
    }
    if i < k {
        assert(nodes[i].path@ != nodes[k].path@);
    }
}

/// Which elements a list holds after a push.
pub proof fn lemma_push_contains(s: Seq<usize>, x: usize, v: usize)
    ensures
        s.push(x).contains(v) == (s.contains(v) || v == x),
{
    if s.contains(v) {
        let i = choose|i: int| 0 <= i < s.len() && s[i] == v;
        assert(s.push(x)[i] == v);
    }
    if v == x {
        assert(s.push(x)[s.len() as int] == v);
    }
    if s.push(x).contains(v) {
        let i = choose|i: int| 0 <= i < s.push(x).len() && s.push(x)[i] == v;
        if i < s.len() {
            assert(s[i] == v);
        }
    }
}

/// Which elements a list without repeats holds after one is taken out.
pub proof fn lemma_remove_contains(s: Seq<usize>, index: int, v: usize)
    requires
        s.no_duplicates(),
        0 <= index < s.len(),
    ensures
        s.remove(index).contains(v) == (s.contains(v) && v != s[index]),
        s.remove(index).no_duplicates(),
{
    let r = s.remove(index);
    if r.contains(v) {
        let i = choose|i: int| 0 <= i < r.len() && r[i] == v;
        if i < index {
            assert(s[i] == v);
        } else {
            assert(s[i + 1] == v);
        }
    }
    if s.contains(v) && v != s[index] {
        let i = choose|i: int| 0 <= i < s.len() && s[i] == v;
        if i < index {
            assert(r[i] == v);
        } else {
            assert(r[i - 1] == v);
        }
    }
    assert forall|i: int, j: int| 0 <= i < r.len() && 0 <= j < r.len() && i != j implies r[i]
        != r[j] by {
        let a = if i < index {
            i
        } else {
            i + 1
        };
        let b = if j < index {
            j
        } else {
            j + 1
        };
        assert(r[i] == s[a] && r[j] == s[b]);
    }
}

impl<T> Graph<T> {
    /// The invariant that every operation of the engine keeps.
    pub open spec fn wf(&self) -> bool {
        well_formed(self@)
    }

    /// A registry that holds `root`, unlinked, and nothing else.
    pub fn new(root: Node<T>) -> (graph: Graph<T>)
        ensures
            graph.wf(),
            graph@.len() == 1,
            graph@[0].same_record(&root),
            graph@[0].is_detached(),
            graph@[0].sorted == root.sorted,
            graph@[0].dag_cost == root.dag_cost,
            graph@[0].times_visited == root.times_visited,
    {
        let mut root = root;
        root.predecessors.clear();
        root.num_successors = 0;
        let mut nodes: Vec<Node<T>> = Vec::new();
        nodes.push(root);
        let graph = Graph { nodes };
        proof {
            let e = edges_of(graph@);
            assert forall|v: usize| v < graph@.len() implies (#[trigger] graph@[v as int]).num_successors
                == fan_in(e, v) by {
                lemma_count_none(1, has_edge_to(e, v));
            }
        }
        graph
    }

    /// Index of the root.
    pub fn root(&self) -> (r: usize)
        ensures
            r == 0,
    {
        0
    }

    /// Number of nodes loaded so far.
    pub fn len(&self) -> (n: usize)
        ensures
            n == self@.len(),
    {
        self.nodes.len()
    }

    /// The node at `index`.
    pub fn node(&self, index: usize) -> (node: &Node<T>)
        requires
            index < self@.len(),
        ensures
            *node == self@[index as int],
    {
        &self.nodes[index]
    }

    /// Index of the node whose identity is `id`, if it has been loaded.
    pub fn find(&self, id: &String) -> (r: Option<usize>)
        ensures
            match r {
                Some(i) => i < self@.len() && self@[i as int].path@ == id@ && (ids_unique(self@)
                    ==> i == index_of_id(self@, id@)),
                None => !holds_id(self@, id@),
            },
    {
        let mut i: usize = 0;
        while i < self.nodes.len()
            invariant
                i <= self@.len(),
                forall|j: int| 0 <= j < i ==> (#[trigger] self@[j]).path@ != id@,
            decreases self@.len() - i,
        {
            if self.nodes[i].path == *id {
                proof {
                    if ids_unique(self@) {
                        let k = index_of_id(self@, id@);
                        assert(self@[i as int].path@ == id@);
                        if k < i {
                            assert(self@[k].path@ != self@[i as int].path@);
                        }
                        if i < k {
                            assert(self@[i as int].path@ != self@[k].path@);
                        }
                    }
                }
                return Some(i);
            }
            i = i + 1;
        }
        None
    }

    /// Takes `node` into the registry under a new index, unlinked. The
    /// identity of `node` must be new to the registry.
    pub fn insert(&mut self, node: Node<T>) -> (index: usize)
        requires
            old(self).wf(),
            !holds_id(old(self)@, node.path@),
        ensures
            final(self).wf(),
            index == old(self)@.len(),
            final(self)@.len() == old(self)@.len() + 1,
            forall|i: int| 0 <= i < old(self)@.len() ==> final(self)@[i] == old(self)@[i],
            final(self)@[index as int].same_record(&node),
            final(self)@[index as int].is_detached(),
            final(self)@[index as int].sorted == node.sorted,
            final(self)@[index as int].dag_cost == node.dag_cost,
            final(self)@[index as int].times_visited == node.times_visited,
    {
        let mut node = node;
        node.predecessors.clear();
        node.num_successors = 0;
        let index = self.nodes.len();
        self.nodes.push(node);
        let grown = self.nodes.len();
        proof {
            assert(grown == index + 1);
            let before = old(self)@;
            let after = self@;
            let n = before.len() as int;
            let e0 = edges_of(before);
            let e1 = edges_of(after);
            assert forall|i: int, j: int| 0 <= i < j < after.len() implies (#[trigger] after[i]).path@
                != (#[trigger] after[j]).path@ by {
                if j == n {
                    assert(before[i].path@ != node.path@);
                } else {
                    assert(before[i].path@ != before[j].path@);
                }
            }
            assert forall|u: int| 0 <= u < e1.len() implies (#[trigger] e1[u]).no_duplicates()
                && forall|k: int|
                0 <= k < e1[u].len() ==> (#[trigger] e1[u][k]) < e1.len() && e1[u][k] != u by {
                if u < n {
                    assert(e1[u] == e0[u]);
                }
            }
            assert forall|v: usize| v < after.len() implies (#[trigger] after[v as int]).num_successors
                == fan_in(e1, v) by {
                let q = has_edge_to(e1, v);
                if v < n {
                    let p = has_edge_to(e0, v);
                    assert forall|u: int| 0 <= u < n implies #[trigger] p(u) == q(u) by {
                        assert(e1[u] == e0[u]);
                    }
                    lemma_count_agree(n, p, q);
                    assert(!q(n));
                    assert(before[v as int].num_successors == fan_in(e0, v));
                } else {
                    assert forall|u: int| 0 <= u < n + 1 implies !#[trigger] q(u) by {
                        if u < n {
                            assert(e1[u] == e0[u]);
                            if e0[u].contains(v) {
                                let k = choose|k: int| 0 <= k < e0[u].len() && e0[u][k] == v;
                                assert(e0[u][k] < e0.len());
                            }
                        }
                    }
                    lemma_count_none(n + 1, q);
                }
            }
        }
        index
    }

    /// Takes the predecessor at `index` out of `node`'s list and off the
    /// count of the node it named. An index past the end changes nothing.
    pub fn remove_predecessor_by_index(&mut self, node: usize, index: usize)
        requires
            old(self).wf(),
            node < old(self)@.len(),
        ensures
            final(self).wf(),
            index < old(self)@[node as int].predecessors@.len() ==> without_edge_at(
                old(self)@,
                final(self)@,
                node as int,
                index as int,
            ),
            index >= old(self)@[node as int].predecessors@.len() ==> final(self)@ == old(self)@,
    {
        if index >= self.nodes[node].predecessors.len() {
            return ;
        }
        let pred = self.nodes[node].predecessors[index];
        proof {
            let e0 = edges_of(old(self)@);
            assert(e0[node as int][index as int] == pred);
            assert(e0[node as int].contains(pred));
            assert(has_edge_to(e0, pred)(node as int));
            lemma_count_positive(e0.len() as int, has_edge_to(e0, pred), node as int);
            assert(old(self)@[pred as int].num_successors == fan_in(e0, pred));
        }
        self.nodes[node].predecessors.remove(index);
        self.nodes[pred].decr_num_successors();
        proof {
            let before = old(self)@;
            let after = self@;
            let e0 = edges_of(before);
            let e1 = edges_of(after);
            assert(e1[node as int] == e0[node as int].remove(index as int));
            assert forall|u: int| 0 <= u < e1.len() && u != node implies #[trigger] e1[u]
                == e0[u] by {}
            assert forall|u: int| 0 <= u < e1.len() implies (#[trigger] e1[u]).no_duplicates()
                && forall|k: int|
                0 <= k < e1[u].len() ==> (#[trigger] e1[u][k]) < e1.len() && e1[u][k] != u by {
                if u == node {
                    lemma_remove_contains(e0[u], index as int, 0);
                    assert forall|k: int| 0 <= k < e1[u].len() implies (#[trigger] e1[u][k])
                        < e1.len() && e1[u][k] != u by {
                        let k0 = if k < index {
                            k
                        } else {
                            k + 1
                        };
                        assert(e1[u][k] == e0[u][k0]);
                    }
                } else {
                    assert(e1[u] == e0[u]);
                }
            }
            assert forall|v: usize| v < after.len() implies (#[trigger] after[v as int]).num_successors
                == fan_in(e1, v) by {
                assert(before[v as int].num_successors == fan_in(e0, v));
                lemma_remove_contains(e0[node as int], index as int, v);
                if v == pred {
                    assert forall|u: int| 0 <= u < e0.len() && u != node implies (#[trigger] e0[u]).contains(
                    v) == e1[u].contains(v) by {
                        assert(e1[u] == e0[u]);
                    }
                    lemma_fan_in_gain(e1, e0, node as int, v);
                } else {
                    assert forall|u: int| 0 <= u < e0.len() implies (#[trigger] e1[u]).contains(v)
                        == e0[u].contains(v) by {
                        if u != node {
                            assert(e1[u] == e0[u]);
                        }
                    }
                    lemma_fan_in_same(e0, e1, v);
                }
            }
        }
    }

    /// Takes `pred` out of the predecessors of `node` and off the count of
    /// `pred`. Where `node` does not hold `pred`, nothing changes.
    pub fn remove_predecessor(&mut self, node: usize, pred: usize)
        requires
            old(self).wf(),
            node < old(self)@.len(),
        ensures
            final(self).wf(),
            match old(self)@[node as int].first_position(pred) {
                Some(i) => without_edge_at(old(self)@, final(self)@, node as int, i),
                None => final(self)@ == old(self)@,
            },
    {
        let index = self.nodes[node].get_predecessor_index(pred);
        match index {
            Ok(i) => {
                proof {
                    let list = self@[node as int].predecessors@;
                    let k = self@[node as int].first_position(pred)->0;
                    assert(list.contains(pred));
                    if k < i {
                        assert(list[k] != pred);
                    }
                    if i < k {
                        assert(list[i as int] != pred);
                    }
                }
                self.remove_predecessor_by_index(node, i);
            },
            Err(_) => {},
        }
    }

    /// Makes `predecessor` a predecessor of `node` and counts the edge at
    /// `predecessor`, unless the edge is there or the two are one node.
    /// The predecessors of `node` then stand in the order of their paths.
    pub fn add_predecessor_node(&mut self, node: usize, predecessor: usize)
        requires
            old(self).wf(),
            node < old(self)@.len(),
            predecessor < old(self)@.len(),
        ensures
            final(self).wf(),
            with_edge(old(self)@, final(self)@, node as int, predecessor as int),
    {
        add_predecessor(self, node, predecessor);
    }

    /// Puts the predecessors of `node` in the order of their paths. No
    /// node is held twice before or after, and no counter changes.
    pub fn dedup_predecessors(&mut self, node: usize)
        requires
            old(self).wf(),
            node < old(self)@.len(),
        ensures
            final(self).wf(),
            final(self)@.len() == old(self)@.len(),
            final(self)@[node as int].same_but_predecessors(&old(self)@[node as int]),
            forall|j: int|
                0 <= j < old(self)@.len() && j != node ==> #[trigger] final(self)@[j] == old(
                    self,
                )@[j],
            path_order(final(self)@, final(self)@[node as int].predecessors@),
            forall|v: usize|
                final(self)@[node as int].predecessors@.contains(v) <==> old(
                    self,
                )@[node as int].predecessors@.contains(v),
    {
        let list = self.nodes[node].predecessors();
        proof {
            assert(edges_of(self@)[node as int] == list@);
            assert(list@.no_duplicates());
            assert forall|i: int| 0 <= i < list@.len() implies (#[trigger] list@[i])
                < self@.len() by {
                assert(edges_of(self@)[node as int][i] < self@.len());
            }
        }
        let sorted = order_by_path(self, &list);
        self.nodes[node].predecessors = sorted;
        proof {
            lemma_relisted_keeps_wf(old(self)@, self@, node as int);
            let listed = self@[node as int].predecessors@;
            assert(path_order(old(self)@, listed));
            assert forall|i: int, j: int| 0 <= i < j < listed.len() implies text_less(
                self@[(#[trigger] listed[i]) as int].path@,
                self@[(#[trigger] listed[j]) as int].path@,
            ) by {
                assert(edges_of(self@)[node as int][i] < self@.len());
                assert(edges_of(self@)[node as int][j] < self@.len());
                assert(self@[listed[i] as int].path@ == old(self)@[listed[i] as int].path@);
                assert(self@[listed[j] as int].path@ == old(self)@[listed[j] as int].path@);
            }
        }
    }

    /// Forgets every edge and all traversal state; the records stay.
    pub fn reset(&mut self)
        requires
            1 <= old(self)@.len(),
            ids_unique(old(self)@),
        ensures
            final(self).wf(),
            final(self)@.len() == old(self)@.len(),
            forall|i: int|
                0 <= i < old(self)@.len() ==> {
                    &&& (#[trigger] final(self)@[i]).same_record(&old(self)@[i])
                    &&& final(self)@[i].is_detached()
                    &&& final(self)@[i].times_visited == 0
                    &&& final(self)@[i].dag_cost == 0
                    &&& !final(self)@[i].sorted
                },
    {
        let mut i: usize = 0;
        while i < self.nodes.len()
            invariant
                i <= self@.len(),
                self@.len() == old(self)@.len(),
                forall|j: int| i <= j < self@.len() ==> #[trigger] self@[j] == old(self)@[j],
                forall|j: int|
                    0 <= j < i ==> {
                        &&& (#[trigger] self@[j]).same_record(&old(self)@[j])
                        &&& self@[j].is_detached()
                        &&& self@[j].times_visited == 0
                        &&& self@[j].dag_cost == 0
                        &&& !self@[j].sorted
                    },
            decreases self@.len() - i,
        {
            self.nodes[i].reset();
            i = i + 1;
        }
        proof {
            let after = self@;
            let e1 = edges_of(after);
            assert forall|a: int, b: int| 0 <= a < b < after.len() implies (#[trigger] after[a]).path@
                != (#[trigger] after[b]).path@ by {
                assert(old(self)@[a].path@ != old(self)@[b].path@);
            }
            assert forall|v: usize| v < after.len() implies (#[trigger] after[v as int]).num_successors
                == fan_in(e1, v) by {
                let q = has_edge_to(e1, v);
                assert forall|u: int| 0 <= u < e1.len() implies !#[trigger] q(u) by {
                    assert(after[u].is_detached());
                }
                lemma_count_none(e1.len() as int, q);
            }
        }
    }
}

/// Listing the same predecessors of one node in another order keeps a
/// registry well-formed.
pub proof fn lemma_relisted_keeps_wf<T>(old: Seq<Node<T>>, new: Seq<Node<T>>, node: int)
    requires
        well_formed(old),
        0 <= node < old.len(),
        new.len() == old.len(),
        new[node].same_but_predecessors(&old[node]),
        forall|j: int| 0 <= j < old.len() && j != node ==> #[trigger] new[j] == old[j],
        new[node].predecessors@.no_duplicates(),
        forall|x: usize|
            new[node].predecessors@.contains(x) <==> old[node].predecessors@.contains(x),
    ensures
        well_formed(new),
{
    let e0 = edges_of(old);
    let e1 = edges_of(new);
    assert forall|i: int, j: int| 0 <= i < j < new.len() implies (#[trigger] new[i]).path@
        != (#[trigger] new[j]).path@ by {
        assert(old[i].path@ != old[j].path@);
    }
    assert forall|u: int| 0 <= u < e1.len() implies (#[trigger] e1[u]).no_duplicates() && forall|
        k: int,
    |
        0 <= k < e1[u].len() ==> (#[trigger] e1[u][k]) < e1.len() && e1[u][k] != u by {
        if u == node {
            assert(e0[u].no_duplicates());
            assert forall|k: int| 0 <= k < e1[u].len() implies (#[trigger] e1[u][k]) < e1.len()
                && e1[u][k] != u by {
                assert(e1[u].contains(e1[u][k]));
                assert(e0[u].contains(e1[u][k]));
                let m = choose|m: int| 0 <= m < e0[u].len() && e0[u][m] == e1[u][k];
                assert(e0[u][m] < e0.len());
            }
        } else {
            assert(e1[u] == e0[u]);
        }
    }
    assert forall|v: usize| v < new.len() implies (#[trigger] new[v as int]).num_successors
        == fan_in(e1, v) by {
        assert(old[v as int].num_successors == fan_in(e0, v));
        assert forall|u: int| 0 <= u < e0.len() implies (#[trigger] e1[u]).contains(v)
            == e0[u].contains(v) by {
            if u != node {
                assert(e1[u] == e0[u]);
            }
        }
        lemma_fan_in_same(e0, e1, v);
    }
}

/// Makes `predecessor` a predecessor of `node` and counts the edge, unless
/// the two are the same node or the edge is there already. The
/// predecessors of `node` then stand in the order of their paths.
pub fn add_predecessor<T>(nodes: &mut Graph<T>, node: usize, predecessor: usize)
    requires
        old(nodes).wf(),
        node < old(nodes)@.len(),
        predecessor < old(nodes)@.len(),
    ensures
        final(nodes).wf(),
        with_edge(old(nodes)@, final(nodes)@, node as int, predecessor as int),
{
    if node == predecessor {
        return ;
    }
    let present = nodes.nodes[node].has_predecessor(predecessor);
    let mut list = nodes.nodes[node].predecessors();
    let ghost held = list@;
    if !present {
        list.push(predecessor);
    }
    proof {
        let e0 = edges_of(old(nodes)@);
        assert(e0[node as int] == held);
        assert(held.no_duplicates());
        assert forall|i: int| 0 <= i < list@.len() implies (#[trigger] list@[i])
            < nodes@.len() by {
            if i < held.len() {
                assert(e0[node as int][i] < e0.len());
            }
        }
        assert forall|i: int, j: int|
            0 <= i < list@.len() && 0 <= j < list@.len() && i != j implies list@[i]
            != list@[j] by {
            if i < held.len() && j < held.len() {
                assert(held[i] != held[j]);
            } else if i < held.len() {
                assert(held.contains(held[i]));
            } else {
                assert(held.contains(held[j]));
            }
        }
        assert forall|v: usize| list@.contains(v) <==> held.contains(v) || v
            == predecessor by {
            if !present {
                lemma_push_contains(held, predecessor, v);
            }
        }
    }
    let sorted = order_by_path(nodes, &list);
    nodes.nodes[node].predecessors = sorted;
    let ghost placed = nodes@;
    proof {
        let before = old(nodes)@;
        let e0 = edges_of(before);
        let e1 = edges_of(placed);
        assert(e1[node as int] == sorted@);
        assert forall|u: int| 0 <= u < e0.len() && u != node implies #[trigger] e1[u]
            == e0[u] by {}
        if !present {
            lemma_fan_in_gain(e0, e1, node as int, predecessor);
            lemma_fan_in_bound(e1, predecessor);
            assert(before[predecessor as int].num_successors == fan_in(e0, predecessor));
        }
    }
    if !present {
        nodes.nodes[predecessor].incr_num_successors();
    }
    proof {
        let before = old(nodes)@;
        let after = nodes@;
        let e0 = edges_of(before);
        let e1 = edges_of(after);
        assert(e1[node as int] == sorted@);
        assert forall|u: int| 0 <= u < e0.len() && u != node implies #[trigger] e1[u]
            == e0[u] by {}
        assert forall|a: int, b: int| 0 <= a < b < after.len() implies (#[trigger] after[a]).path@
            != (#[trigger] after[b]).path@ by {
            assert(before[a].path@ != before[b].path@);
        }
        assert forall|u: int| 0 <= u < e1.len() implies (#[trigger] e1[u]).no_duplicates()
            && forall|k: int|
            0 <= k < e1[u].len() ==> (#[trigger] e1[u][k]) < e1.len() && e1[u][k] != u by {
            if u == node {
                assert forall|k: int| 0 <= k < e1[u].len() implies (#[trigger] e1[u][k])
                    < e1.len() && e1[u][k] != u by {
                    assert(sorted@.contains(sorted@[k]));
                    if held.contains(sorted@[k]) {
                        let m = choose|m: int| 0 <= m < held.len() && held[m] == sorted@[k];
                        assert(e0[u][m] < e0.len());
                    }
                }
            } else {
                assert(e1[u] == e0[u]);
            }
        }
        assert forall|v: usize| v < after.len() implies (#[trigger] after[v as int]).num_successors
            == fan_in(e1, v) by {
            assert(before[v as int].num_successors == fan_in(e0, v));
            if v == predecessor && !present {
                assert forall|u: int| 0 <= u < e0.len() && u != node implies (#[trigger] e1[u]).contains(
                v) == e0[u].contains(v) by {
                    assert(e1[u] == e0[u]);
                }
                lemma_fan_in_gain(e0, e1, node as int, v);
            } else {
                assert forall|u: int| 0 <= u < e0.len() implies (#[trigger] e1[u]).contains(v)
                    == e0[u].contains(v) by {
                    if u != node {
                        assert(e1[u] == e0[u]);
                    }
                }
                lemma_fan_in_same(e0, e1, v);
            }
        }
        assert(path_order(before, after[node as int].predecessors@)) by {
            assert(path_order(placed, sorted@));
        }
        if present {
            assert(after[predecessor as int] == before[predecessor as int]);
        }
    }
}

/// Records that `successor` depends on `node`: the root gets `successor` as
/// a predecessor, so that it is reached from the root, and `successor` gets
/// `node`.
pub fn add_successor<T>(nodes: &mut Graph<T>, root: usize, node: usize, successor: usize)
    requires
        old(nodes).wf(),
        root < old(nodes)@.len(),
        node < old(nodes)@.len(),
        successor < old(nodes)@.len(),
    ensures
        final(nodes).wf(),
        exists|mid: Seq<Node<T>>|
            well_formed(mid) && with_edge(old(nodes)@, mid, root as int, successor as int)
                && with_edge(mid, final(nodes)@, successor as int, node as int),
{
    add_predecessor(nodes, root, successor);
    let ghost mid = nodes@;
    add_predecessor(nodes, successor, node);
    proof {
        assert(well_formed(mid) && with_edge(old(nodes)@, mid, root as int, successor as int)
            && with_edge(mid, nodes@, successor as int, node as int));
    }
}

} // verus!
