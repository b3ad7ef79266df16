//! Chains of predecessor edges: reachability and the absence of cycles.

use crate::counting::{
    count_below, lemma_count_every, lemma_count_flip, lemma_count_gap, lemma_count_none,
};
use crate::graph::{edges_of, Graph};
use vstd::prelude::*;

verus! {

/// A chain of nodes, each of which has the next among its predecessors.
pub open spec fn is_path(edges: Seq<Seq<usize>>, p: Seq<usize>) -> bool {
    &&& p.len() >= 1
    &&& forall|i: int| 0 <= i < p.len() ==> (#[trigger] p[i]) < edges.len()
    &&& forall|i: int, j: int|
        0 <= i && j == i + 1 && j < p.len() ==> edges[(#[trigger] p[i]) as int].contains(
            #[trigger] p[j],
        )
}

/// Whether predecessor edges lead from `from` to `to`.
pub open spec fn reachable(edges: Seq<Seq<usize>>, from: usize, to: usize) -> bool {
    exists|p: Seq<usize>| is_path(edges, p) && p[0] == from && p[p.len() - 1] == to
}

/// `rank` falls along every edge.
pub open spec fn ranked(edges: Seq<Seq<usize>>, rank: Seq<nat>) -> bool {
    &&& rank.len() == edges.len()
    &&& forall|u: int, k: int|
        0 <= u < edges.len() && 0 <= k < edges[u].len() ==> rank[(#[trigger] edges[u][k]) as int]
            < rank[u]
}

/// No chain of predecessor edges returns to where it began.
pub open spec fn acyclic(edges: Seq<Seq<usize>>) -> bool {
    exists|rank: Seq<nat>| ranked(edges, rank)
}

/// Whatever holds a node below `root` as a predecessor lies below `root`
/// itself.
pub open spec fn closed_below(edges: Seq<Seq<usize>>, root: usize) -> bool {
    forall|u: int, k: int|
        0 <= u < edges.len() && 0 <= k < edges[u].len() && reachable(
            edges,
            root,
            #[trigger] edges[u][k],
        ) ==> reachable(edges, root, u as usize)
}

/// `rank` falls along every edge that begins below `root`.
pub open spec fn ranked_below(edges: Seq<Seq<usize>>, root: usize, rank: Seq<nat>) -> bool {
    &&& rank.len() == edges.len()
    &&& forall|u: int, k: int|
        0 <= u < edges.len() && 0 <= k < edges[u].len() && reachable(edges, root, u as usize)
            ==> rank[(#[trigger] edges[u][k]) as int] < rank[u]
}

/// No chain of predecessor edges that begins below `root` returns to
/// where it began.
pub open spec fn acyclic_below(edges: Seq<Seq<usize>>, root: usize) -> bool {
    exists|rank: Seq<nat>| ranked_below(edges, root, rank)
}

/// The largest of the first `k` ranks.
pub open spec fn max_rank(rank: Seq<nat>, k: int) -> nat
    decreases k,
{
    if k <= 0 {
        0
    } else if rank[k - 1] > max_rank(rank, k - 1) {
        rank[k - 1]
    } else {
        max_rank(rank, k - 1)
    }
}

/// No rank exceeds the largest.
pub proof fn lemma_max_rank(rank: Seq<nat>, k: int, i: int)
    requires
        0 <= i < k <= rank.len(),
    ensures
        rank[i] <= max_rank(rank, k),
    decreases k,
{
    if i < k - 1 {
        lemma_max_rank(rank, k - 1, i);
    }
}

/// Every node reaches itself.
pub proof fn lemma_reachable_self(edges: Seq<Seq<usize>>, v: usize)
    requires
        v < edges.len(),
    ensures
        reachable(edges, v, v),
{
    let p = seq![v];
    assert(is_path(edges, p) && p[0] == v && p[p.len() - 1] == v);
}

/// A node reaches whatever one of its predecessors reaches.
pub proof fn lemma_reachable_through(edges: Seq<Seq<usize>>, a: usize, b: usize, c: usize)
    requires
        a < edges.len(),
        edges[a as int].contains(b),
        reachable(edges, b, c),
    ensures
        reachable(edges, a, c),
{
    let p = choose|p: Seq<usize>| is_path(edges, p) && p[0] == b && p[p.len() - 1] == c;
    let q = seq![a] + p;
    assert forall|i: int, j: int| 0 <= i && j == i + 1 && j < q.len() implies edges[(
    #[trigger] q[i]) as int].contains(#[trigger] q[j]) by {
        if i > 0 {
            assert(q[i] == p[i - 1] && q[j] == p[j - 1]);
            assert(edges[p[i - 1] as int].contains(p[j - 1]));
        }
    }
    assert(is_path(edges, q) && q[0] == a && q[q.len() - 1] == c);
}

/// A set of nodes that holds `from` and, with every node, its predecessors
/// holds everything that `from` reaches.
pub proof fn lemma_closed_holds_reachable(
    edges: Seq<Seq<usize>>,
    inside: spec_fn(usize) -> bool,
    from: usize,
    to: usize,
)
    requires
        inside(from),
        forall|u: usize, k: int|
            u < edges.len() && inside(u) && 0 <= k < edges[u as int].len() ==> inside(
                #[trigger] edges[u as int][k],
            ),
        reachable(edges, from, to),
    ensures
        inside(to),
{
    let p = choose|p: Seq<usize>| is_path(edges, p) && p[0] == from && p[p.len() - 1] == to;
    lemma_closed_holds_path(edges, inside, p, p.len() - 1);
}

/// A closed set that holds the first node of a chain holds all of it.
pub proof fn lemma_closed_holds_path(
    edges: Seq<Seq<usize>>,
    inside: spec_fn(usize) -> bool,
    p: Seq<usize>,
    i: int,
)
    requires
        is_path(edges, p),
        inside(p[0]),
        forall|u: usize, k: int|
            u < edges.len() && inside(u) && 0 <= k < edges[u as int].len() ==> inside(
                #[trigger] edges[u as int][k],
            ),
        0 <= i < p.len(),
    ensures
        inside(p[i]),
    decreases i,
{
    if i > 0 {
        lemma_closed_holds_path(edges, inside, p, i - 1);
        assert(edges[p[i - 1] as int].contains(p[i]));
        let k = choose|k: int|
            0 <= k < edges[p[i - 1] as int].len() && (#[trigger] edges[p[i - 1] as int][k]) == p[i];
        assert(inside(edges[p[i - 1] as int][k]));
    }
}

/// The ranks in `rank` as plain numbers.
pub open spec fn ranks_of(rank: Seq<usize>) -> Seq<nat> {
    Seq::new(rank.len(), |i: int| rank[i] as nat)
}

impl<T> Graph<T> {
    /// Whether `rank` falls along every edge.
    pub fn is_ranked_by(&self, rank: &Vec<usize>) -> (r: bool)
        requires
            self.wf(),
        ensures
            r == ranked(edges_of(self@), ranks_of(rank@)),
    {
        let n = self.nodes.len();
        if rank.len() != n {
            return false;
        }
        let ghost edges = edges_of(self@);
        let ghost ranks = ranks_of(rank@);
        let mut u: usize = 0;
        while u < n
            invariant
                self.wf(),
                n == self@.len(),
                rank@.len() == n,
                edges == edges_of(self@),
                ranks == ranks_of(rank@),
                u <= n,
                forall|x: int, k: int|
                    0 <= x < u && 0 <= k < edges[x].len() ==> ranks[(
                    #[trigger] edges[x][k]) as int] < ranks[x],
            decreases n - u,
        {
            let count = self.nodes[u].predecessors.len();
            let mut k: usize = 0;
            while k < count
                invariant
                    self.wf(),
                    n == self@.len(),
                    rank@.len() == n,
                    edges == edges_of(self@),
                    ranks == ranks_of(rank@),
                    u < n,
                    count == edges[u as int].len(),
                    k <= count,
                    forall|j: int|
                        0 <= j < k ==> ranks[(#[trigger] edges[u as int][j]) as int]
                            < ranks[u as int],
                decreases count - k,
            {
                let p = self.nodes[u].predecessors[k];
                proof {
                    assert(edges[u as int][k as int] == p);
                    assert(edges[u as int].no_duplicates());
                }
                if rank[p] >= rank[u] {
                    return false;
                }
                k = k + 1;
            }
            u = u + 1;
        }
        true
    }

    /// Looks for ranks that fall along every edge, which there are if and
    /// only if the edges hold no cycle. Nodes are ranked one after the
    /// other, each once all its predecessors are ranked, and each above
    /// all that were ranked before it; where nodes are left and none of
    /// them has all its predecessors ranked, the edges hold a cycle.
    pub fn find_ranking(&self) -> (r: Option<Vec<usize>>)
        requires
            self.wf(),
        ensures
            match r {
                Some(rank) => ranked(edges_of(self@), ranks_of(rank@)),
                None => !acyclic(edges_of(self@)),
            },
            r is Some <==> acyclic(edges_of(self@)),
    {
        let ghost edges = edges_of(self@);
        let n = self.nodes.len();
        let mut rank: Vec<usize> = Vec::new();
        let mut done: Vec<bool> = Vec::new();
        let mut i: usize = 0;
        while i < n
            invariant
                i <= n,
                rank@.len() == i,
                done@.len() == i,
                forall|j: int| 0 <= j < i ==> !#[trigger] done@[j],
            decreases n - i,
        {
            rank.push(0);
            done.push(false);
            i = i + 1;
        }
        proof {
            lemma_count_none(n as int, ranked_so_far(done@));
        }
        let mut count: usize = 0;
        while count < n
            invariant
                self.wf(),
                n == self@.len(),
                edges == edges_of(self@),
                rank@.len() == n,
                done@.len() == n,
                count <= n,
                count_below(n as int, ranked_so_far(done@)) == count,
                forall|u: int| 0 <= u < n && #[trigger] done@[u] ==> rank@[u] <= count,
                forall|u: int, k: int|
                    0 <= u < n && done@[u] && 0 <= k < edges[u].len() ==> done@[(
                    #[trigger] edges[u][k]) as int] && rank@[edges[u][k] as int] < rank@[u],
            decreases n - count,
        {
            // Look for a node that is not ranked and whose predecessors all are.
            let mut u: usize = 0;
            let mut found = false;
            while u < n && !found
                invariant
                    self.wf(),
                    n == self@.len(),
                    edges == edges_of(self@),
                    done@.len() == n,
                    u <= n,
                    found ==> u < n && !done@[u as int] && settled_below(edges, done@, u as int),
                    forall|x: int|
                        0 <= x < u && !found ==> #[trigger] done@[x] || !settled_below(
                            edges,
                            done@,
                            x,
                        ),
                decreases n - u + if found {
                    0int
                } else {
                    1int
                },
            {
                if !done[u] {
                    let preds = self.nodes[u].predecessors.len();
                    let mut k: usize = 0;
                    let mut all = true;
                    while k < preds && all
                        invariant
                            self.wf(),
                            n == self@.len(),
                            edges == edges_of(self@),
                            done@.len() == n,
                            u < n,
                            preds == edges[u as int].len(),
                            k <= preds,
                            all ==> forall|j: int|
                                0 <= j < k ==> done@[(#[trigger] edges[u as int][j]) as int],
                            !all ==> !settled_below(edges, done@, u as int),
                        decreases preds - k + if all {
                            1int
                        } else {
                            0int
                        },
                    {
                        let p = self.nodes[u].predecessors[k];
                        proof {
                            assert(edges[u as int][k as int] == p);
                            assert(edges[u as int].no_duplicates());
                        }
                        if !done[p] {
                            all = false;
                        } else {
                            k = k + 1;
                        }
                    }
                    if all {
                        found = true;
                    } else {
                        u = u + 1;
                    }
                } else {
                    u = u + 1;
                }
            }
            if !found {
                proof {
                    if acyclic(edges) {
                        let fall = choose|fall: Seq<nat>| ranked(edges, fall);
                        // Some node is not ranked, and below it one whose
                        // predecessors are all ranked.
                        if forall|x: int| 0 <= x < n ==> #[trigger] ranked_so_far(done@)(x) {
                            lemma_count_every(n as int, ranked_so_far(done@));
                        }
                        let v = choose|v: int| 0 <= v < n && !#[trigger] ranked_so_far(done@)(v);
                        let low = lemma_lowest_unranked(edges, fall, done@, v);
                        assert(done@[low] || !settled_below(edges, done@, low));
                    }
                }
                return None;
            }
            let ghost before = done@;
            let ghost ranks = rank@;
            done[u] = true;
            count = count + 1;
            rank[u] = count;
            proof {
                let p = ranked_so_far(before);
                let q = ranked_so_far(done@);
                assert forall|x: int| 0 <= x < n && x != u implies #[trigger] p(x) == q(x) by {}
                lemma_count_flip(n as int, p, q, u as int);
                assert forall|x: int, k: int|
                    0 <= x < n && done@[x] && 0 <= k < edges[x].len() implies done@[(
                #[trigger] edges[x][k]) as int] && rank@[edges[x][k] as int] < rank@[x] by {
                    let y = edges[x][k];
                    assert(edges[x].no_duplicates());
                    assert(y != x && y < n);
                    if x == u {
                        assert(before[y as int]);
                        assert(ranks[y as int] <= count - 1);
                    } else {
                        assert(before[x]);
                        assert(before[y as int] && ranks[y as int] < ranks[x]);
                        assert(y != u);
                    }
                }
            }
        }
        proof {
            let have = ranks_of(rank@);
            assert forall|x: int, k: int|
                0 <= x < edges.len() && 0 <= k < edges[x].len() implies have[(
            #[trigger] edges[x][k]) as int] < have[x] by {
                if !done@[x] {
                    lemma_count_gap(n as int, ranked_so_far(done@), x);
                }
                assert(edges[x].no_duplicates());
                assert(rank@[edges[x][k] as int] < rank@[x]);
            }
            assert(ranked(edges, have));
        }
        Some(rank)
    }
}

/// The predicate "node `i` has been ranked".
pub open spec fn ranked_so_far(done: Seq<bool>) -> spec_fn(int) -> bool {
    |i: int| done[i]
}

/// Whether all predecessors of `u` have been ranked.
pub open spec fn settled_below(edges: Seq<Seq<usize>>, done: Seq<bool>, u: int) -> bool {
    forall|k: int| 0 <= k < edges[u].len() ==> done[(#[trigger] edges[u][k]) as int]
}

/// Where ranks fall along every edge and a node is not ranked yet, some
/// node is not ranked yet while all its predecessors are: the node
/// itself, or one that is found below one of its predecessors.
pub proof fn lemma_lowest_unranked(
    edges: Seq<Seq<usize>>,
    fall: Seq<nat>,
    done: Seq<bool>,
    v: int,
) -> (low: int)
    requires
        ranked(edges, fall),
        done.len() == edges.len(),
        forall|u: int, k: int|
            0 <= u < edges.len() && 0 <= k < edges[u].len() ==> (#[trigger] edges[u][k])
                < edges.len(),
        0 <= v < edges.len(),
        !done[v],
    ensures
        0 <= low < edges.len(),
        !done[low],
        settled_below(edges, done, low),
    decreases fall[v],
{
    if settled_below(edges, done, v) {
        v
    } else {
        let k = choose|k: int| 0 <= k < edges[v].len() && !done[(#[trigger] edges[v][k]) as int];
        assert(fall[edges[v][k] as int] < fall[v]);
        lemma_lowest_unranked(edges, fall, done, edges[v][k] as int)
    }
}

/// Along a chain that begins at `root`, every node lies below `root`, and
/// ranks fall by one at least at every step.
pub proof fn lemma_path_falls(
    edges: Seq<Seq<usize>>,
    root: usize,
    rank: Seq<nat>,
    p: Seq<usize>,
    i: int,
)
    requires
        edges.len() <= usize::MAX,
        is_path(edges, p),
        p[0] == root,
        ranked_below(edges, root, rank),
        0 <= i < p.len(),
    ensures
        reachable(edges, root, p[i]),
        rank[p[i] as int] + i <= rank[root as int],
    decreases i,
{
    let head = p.take(i + 1);
    assert forall|a: int, b: int| 0 <= a && b == a + 1 && b < head.len() implies edges[(
    #[trigger] head[a]) as int].contains(#[trigger] head[b]) by {
        assert(edges[p[a] as int].contains(p[b]));
    }
    assert(is_path(edges, head) && head[0] == root && head[head.len() - 1] == p[i]);
    if i > 0 {
        lemma_path_falls(edges, root, rank, p, i - 1);
        let u = p[i - 1] as int;
        assert(edges[u].contains(p[i]));
        let k = choose|k: int| 0 <= k < edges[u].len() && edges[u][k] == p[i];
        assert(rank[edges[u][k] as int] < rank[u]);
    }
}

/// Where the edges below `root` hold no cycle and nothing from outside
/// holds a node below `root`, nothing holds `root`.
pub proof fn lemma_root_is_free(edges: Seq<Seq<usize>>, root: usize, u: int)
    requires
        edges.len() <= usize::MAX,
        root < edges.len(),
        closed_below(edges, root),
        acyclic_below(edges, root),
        0 <= u < edges.len(),
    ensures
        !edges[u].contains(root),
{
    if edges[u].contains(root) {
        let rank = choose|rank: Seq<nat>| ranked_below(edges, root, rank);
        let k = choose|k: int| 0 <= k < edges[u].len() && edges[u][k] == root;
        lemma_reachable_self(edges, root);
        assert(reachable(edges, root, edges[u][k]));
        assert(reachable(edges, root, u as usize));
        assert(rank[edges[u][k] as int] < rank[u]);
        let p = choose|p: Seq<usize>|
            is_path(edges, p) && p[0] == root && p[p.len() - 1] == u as usize;
        lemma_path_falls(edges, root, rank, p, p.len() - 1);
    }
}

/// A node reaches the predecessors of whatever it reaches.
pub proof fn lemma_reachable_step(edges: Seq<Seq<usize>>, a: usize, b: usize, c: usize)
    requires
        reachable(edges, a, b),
        b < edges.len(),
        c < edges.len(),
        edges[b as int].contains(c),
    ensures
        reachable(edges, a, c),
{
    let p = choose|p: Seq<usize>| is_path(edges, p) && p[0] == a && p[p.len() - 1] == b;
    let q = p.push(c);
    assert forall|i: int, j: int| 0 <= i && j == i + 1 && j < q.len() implies edges[(
    #[trigger] q[i]) as int].contains(#[trigger] q[j]) by {
        if j < p.len() {
            assert(q[i] == p[i] && q[j] == p[j]);
            assert(edges[p[i] as int].contains(p[j]));
        }
    }
    assert(is_path(edges, q) && q[0] == a && q[q.len() - 1] == c);
}

/// Edges that hold no cycle anywhere hold none below any node.
pub proof fn lemma_acyclic_below(edges: Seq<Seq<usize>>, root: usize)
    requires
        acyclic(edges),
    ensures
        acyclic_below(edges, root),
{
    let rank = choose|rank: Seq<nat>| ranked(edges, rank);
    assert(ranked_below(edges, root, rank));
}

} // verus!
