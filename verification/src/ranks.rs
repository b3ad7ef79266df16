//! What holds of a build where the topics declare no cycle: nothing that
//! they declare is dropped.
//!
//! That there is no cycle is stated with a rank: a number for every
//! identity, lower than the rank of the topic for everything that a topic
//! comes after, and higher for everything that it comes before.

use crate::branch::with_member;
use crate::builder::{
    after_linked, all_after_linked, branch_in, built, kept_at, lemma_after_linked_stays,
    lemma_built_trans, lemma_id_stays, new_edge,
};
use crate::graph::{edges_of, holds_id, ids_unique, index_of_id, well_formed, with_edge};
use crate::loader::with_node;
use crate::node::Node;
use crate::text::clean_path;
use vstd::prelude::*;

verus! {

/// The `k`-th topic that `current` comes before has a node, and that node
/// has `current` as a predecessor unless it is `current` or on the path.
pub open spec fn before_joined<T>(
    nodes: Seq<Node<T>>,
    current: int,
    sbranch: Seq<usize>,
    k: int,
) -> bool {
    let id = clean_path(nodes[current].before@[k]@);
    holds_id(nodes, id) && {
        let s = index_of_id(nodes, id);
        sbranch.contains(s as usize) || s == current || nodes[s].predecessors@.contains(
            current as usize,
        )
    }
}

/// Every topic that `current` comes before is joined to it.
pub open spec fn all_before_joined<T>(
    old: Seq<Node<T>>,
    new: Seq<Node<T>>,
    current: usize,
    sbranch: Seq<usize>,
) -> bool {
    forall|k: int|
        0 <= k < old[current as int].before@.len() ==> #[trigger] before_joined(
            new,
            current as int,
            sbranch,
            k,
        )
}

/// What a build has joined stays joined while building goes on.
pub proof fn lemma_before_joined_stays<T>(
    b: Seq<Node<T>>,
    c: Seq<Node<T>>,
    current: int,
    sbranch: Seq<usize>,
    k: int,
)
    requires
        built(b, c),
        well_formed(b),
        ids_unique(c),
        0 <= current < b.len(),
        0 <= k < b[current].before@.len(),
        before_joined(b, current, sbranch, k),
    ensures
        before_joined(c, current, sbranch, k),
{
    let id = clean_path(b[current].before@[k]@);
    let s = index_of_id(b, id);
    assert(kept_at(b, c, current));
    assert(kept_at(b, c, s));
    lemma_id_stays(b, c, s);
}

/// What the topics of `nodes` declare agrees with `rank`: a topic ranks
/// above everything that it comes after and below everything that it
/// comes before. Where there is such a rank, what they declare holds no
/// cycle.
pub open spec fn in_rank<T>(nodes: Seq<Node<T>>, rank: spec_fn(Seq<char>) -> int) -> bool {
    &&& forall|x: int, k: int|
        0 <= x < nodes.len() && 0 <= k < nodes[x].after@.len() ==> rank(
            clean_path((#[trigger] nodes[x].after@[k])@),
        ) < rank(nodes[x].path@)
    &&& forall|x: int, k: int|
        0 <= x < nodes.len() && 0 <= k < nodes[x].before@.len() ==> rank(nodes[x].path@) < rank(
            clean_path((#[trigger] nodes[x].before@[k])@),
        )
}

/// Every node on the path ranks above `node`.
pub open spec fn path_above<T>(
    nodes: Seq<Node<T>>,
    members: Seq<usize>,
    node: int,
    rank: spec_fn(Seq<char>) -> int,
) -> bool {
    forall|i: int|
        0 <= i < members.len() ==> rank(nodes[node].path@) < rank(
            nodes[(#[trigger] members[i]) as int].path@,
        )
}

/// Every node on the path ranks below `node`.
pub open spec fn path_below<T>(
    nodes: Seq<Node<T>>,
    members: Seq<usize>,
    node: int,
    rank: spec_fn(Seq<char>) -> int,
) -> bool {
    forall|i: int|
        0 <= i < members.len() ==> rank(nodes[(#[trigger] members[i]) as int].path@) < rank(
            nodes[node].path@,
        )
}

/// Everything that `x` declares is there: every topic that it comes after
/// has a node, which is a predecessor of `x`, and every topic that it
/// comes before has a node, of which `x` is a predecessor. (A topic that
/// names itself is passed over.)
pub open spec fn all_linked<T>(nodes: Seq<Node<T>>, x: int) -> bool {
    &&& forall|k: int|
        0 <= k < nodes[x].after@.len() ==> #[trigger] after_linked(
            nodes,
            x,
            Seq::<usize>::empty(),
            k,
        )
    &&& forall|k: int|
        0 <= k < nodes[x].before@.len() ==> #[trigger] before_joined(
            nodes,
            x,
            Seq::<usize>::empty(),
            k,
        )
}

/// Every edge that `new` has and `old` has not runs between nodes of
/// which everything that they declare is there, but for `node` and for
/// the root where it holds the edge.
pub open spec fn linked_but<T>(old: Seq<Node<T>>, new: Seq<Node<T>>, node: int) -> bool {
    forall|x: int, v: usize|
        0 <= x < new.len() && #[trigger] new_edge(old, new, x, v) ==> (v == node || all_linked(
            new,
            v as int,
        )) && (x == 0 || x == node || all_linked(new, x))
}

/// Everything that `node` declares is there, and every edge that `new`
/// has and `old` has not runs between nodes of which everything that
/// they declare is there, but for the root where it holds the edge.
pub open spec fn complete<T>(old: Seq<Node<T>>, new: Seq<Node<T>>, node: int) -> bool {
    &&& all_linked(new, node)
    &&& forall|x: int, v: usize|
        0 <= x < new.len() && #[trigger] new_edge(old, new, x, v) ==> all_linked(new, v as int)
            && (x == 0 || all_linked(new, x))
}

/// Where what the topics of `new` declare holds no cycle, and the paths
/// that the build began with lie above and below `node`, the build from
/// `node` has dropped nothing so far, but of `node` itself.
pub open spec fn kept_so_far<T>(
    old: Seq<Node<T>>,
    new: Seq<Node<T>>,
    node: int,
    pbranch: Seq<usize>,
    sbranch: Seq<usize>,
) -> bool {
    forall|rank: spec_fn(Seq<char>) -> int|
        #[trigger] in_rank(new, rank) && path_above(old, pbranch, node, rank) && path_below(
            old,
            sbranch,
            node,
            rank,
        ) ==> linked_but(old, new, node)
}

/// Where what the topics of `new` declare holds no cycle, and the paths
/// that the build began with lie above and below `node`, the build from
/// `node` has dropped nothing.
pub open spec fn all_kept<T>(
    old: Seq<Node<T>>,
    new: Seq<Node<T>>,
    node: int,
    pbranch: Seq<usize>,
    sbranch: Seq<usize>,
) -> bool {
    forall|rank: spec_fn(Seq<char>) -> int|
        #[trigger] in_rank(new, rank) && path_above(old, pbranch, node, rank) && path_below(
            old,
            sbranch,
            node,
            rank,
        ) ==> complete(old, new, node)
}

/// A rank that what the topics of a registry declare agrees with is one
/// for every registry that this one was built from.
pub proof fn lemma_in_rank_stays<T>(a: Seq<Node<T>>, b: Seq<Node<T>>, rank: spec_fn(Seq<char>) -> int)
    requires
        built(a, b),
        in_rank(b, rank),
    ensures
        in_rank(a, rank),
{
    assert forall|x: int, k: int| 0 <= x < a.len() && 0 <= k < a[x].after@.len() implies rank(
        clean_path((#[trigger] a[x].after@[k])@),
    ) < rank(a[x].path@) by {
        assert(kept_at(a, b, x));
        assert(b[x].after@[k] == a[x].after@[k]);
    }
    assert forall|x: int, k: int| 0 <= x < a.len() && 0 <= k < a[x].before@.len() implies rank(
        a[x].path@,
    ) < rank(clean_path((#[trigger] a[x].before@[k])@)) by {
        assert(kept_at(a, b, x));
        assert(b[x].before@[k] == a[x].before@[k]);
    }
}

/// What is there of what a node declares stays while building goes on.
pub proof fn lemma_all_linked_stays<T>(b: Seq<Node<T>>, c: Seq<Node<T>>, x: int)
    requires
        built(b, c),
        well_formed(b),
        ids_unique(c),
        0 <= x < b.len(),
        all_linked(b, x),
    ensures
        all_linked(c, x),
{
    assert(kept_at(b, c, x));
    assert forall|k: int| 0 <= k < c[x].after@.len() implies #[trigger] after_linked(
        c,
        x,
        Seq::<usize>::empty(),
        k,
    ) by {
        assert(after_linked(b, x, Seq::<usize>::empty(), k));
        lemma_after_linked_stays(b, c, x, Seq::<usize>::empty(), k);
    }
    assert forall|k: int| 0 <= k < c[x].before@.len() implies #[trigger] before_joined(
        c,
        x,
        Seq::<usize>::empty(),
        k,
    ) by {
        assert(before_joined(b, x, Seq::<usize>::empty(), k));
        lemma_before_joined_stays(b, c, x, Seq::<usize>::empty(), k);
    }
}

/// An edge of a well-formed registry leads to a node of it.
pub proof fn lemma_edge_in_range<T>(nodes: Seq<Node<T>>, x: int, v: usize)
    requires
        well_formed(nodes),
        0 <= x < nodes.len(),
        nodes[x].predecessors@.contains(v),
    ensures
        v < nodes.len(),
{
    let j = choose|j: int| 0 <= j < nodes[x].predecessors@.len() && nodes[x].predecessors@[j] == v;
    assert(edges_of(nodes)[x][j] == v);
}

/// What holds of the new edges of one stretch of a build and of the next
/// holds of the new edges of both.
pub proof fn lemma_linked_but_grows<T>(
    start: Seq<Node<T>>,
    mid: Seq<Node<T>>,
    fin: Seq<Node<T>>,
    node: int,
)
    requires
        built(start, mid),
        built(mid, fin),
        well_formed(mid),
        ids_unique(fin),
        linked_but(start, mid, node),
        linked_but(mid, fin, node),
    ensures
        linked_but(start, fin, node),
{
    assert forall|x: int, v: usize| 0 <= x < fin.len() && #[trigger] new_edge(
        start,
        fin,
        x,
        v,
    ) implies (v == node || all_linked(fin, v as int)) && (x == 0 || x == node || all_linked(
        fin,
        x,
    )) by {
        if x < mid.len() && mid[x].predecessors@.contains(v) {
            assert(new_edge(start, mid, x, v));
            lemma_edge_in_range(mid, x, v);
            if v != node {
                lemma_all_linked_stays(mid, fin, v as int);
            }
            if x != 0 && x != node {
                lemma_all_linked_stays(mid, fin, x);
            }
        } else {
            assert(new_edge(mid, fin, x, v));
        }
    }
}

/// Adding the edge from `x` to `y` adds no other.
pub proof fn lemma_one_edge_more<T>(a: Seq<Node<T>>, b: Seq<Node<T>>, x: int, y: int)
    requires
        0 <= x < a.len(),
        0 <= y < a.len(),
        with_edge(a, b, x, y),
    ensures
        b.len() == a.len(),
        forall|u: int, v: usize|
            0 <= u < b.len() && #[trigger] b[u].predecessors@.contains(v)
                ==> a[u].predecessors@.contains(v) || (u == x && v == y),
{
    if x != y {
        assert forall|u: int, v: usize|
            0 <= u < b.len() && #[trigger] b[u].predecessors@.contains(
                v,
            ) implies a[u].predecessors@.contains(v) || (u == x && v == y) by {
            if u != x && u != y {
                assert(b[u] == a[u]);
            }
        }
    }
}

/// Taking in a node adds no edge.
pub proof fn lemma_no_edge_more<T>(a: Seq<Node<T>>, b: Seq<Node<T>>)
    requires
        b == a || with_node(a, b),
    ensures
        forall|u: int, v: usize|
            0 <= u < b.len() && #[trigger] b[u].predecessors@.contains(v) ==> u < a.len()
                && a[u].predecessors@.contains(v),
{
    assert forall|u: int, v: usize|
        0 <= u < b.len() && #[trigger] b[u].predecessors@.contains(v) implies u < a.len()
        && a[u].predecessors@.contains(v) by {
        if b != a {
            if u < a.len() {
                assert(b[u] == a[u]);
            } else {
                let j = choose|j: int|
                    0 <= j < b[u].predecessors@.len() && b[u].predecessors@[j] == v;
            }
        }
    }
}

/// A step of a build that adds no edge drops nothing.
pub proof fn lemma_kept_on_load<T>(
    start: Seq<Node<T>>,
    before: Seq<Node<T>>,
    taken: Seq<Node<T>>,
    node: int,
    pbranch: Seq<usize>,
    sbranch: Seq<usize>,
)
    requires
        built(start, before),
        built(before, taken),
        well_formed(before),
        ids_unique(taken),
        taken == before || with_node(before, taken),
        kept_so_far(start, before, node, pbranch, sbranch),
    ensures
        kept_so_far(start, taken, node, pbranch, sbranch),
{
    assert forall|rank: spec_fn(Seq<char>) -> int|
        #[trigger] in_rank(taken, rank) && path_above(start, pbranch, node, rank) && path_below(
            start,
            sbranch,
            node,
            rank,
        ) implies linked_but(start, taken, node) by {
        lemma_in_rank_stays(before, taken, rank);
        assert(linked_but(start, before, node));
        lemma_no_edge_more(before, taken);
        assert(linked_but(before, taken, node));
        lemma_linked_but_grows(start, before, taken, node);
    }
}

/// A step of a build that adds the edges from `x` to `y` and from `z` to
/// `x`, where `node` is one of `x` and `y` and `z` the root or `x`, and
/// goes on from the other of `x` and `y` to a build that drops nothing,
/// drops nothing.
pub proof fn lemma_kept_on_descent<T>(
    start: Seq<Node<T>>,
    before: Seq<Node<T>>,
    taken: Seq<Node<T>>,
    tied: Seq<Node<T>>,
    hung: Seq<Node<T>>,
    fin: Seq<Node<T>>,
    node: int,
    other: int,
    x: int,
    y: int,
    z: int,
    pbranch: Seq<usize>,
    sbranch: Seq<usize>,
    pnext: Seq<usize>,
    snext: Seq<usize>,
)
    requires
        built(start, before),
        built(before, taken),
        built(taken, hung),
        built(hung, fin),
        well_formed(before),
        well_formed(taken),
        well_formed(hung),
        ids_unique(fin),
        taken == before || with_node(before, taken),
        0 <= x < taken.len(),
        0 <= y < taken.len(),
        with_edge(taken, tied, x, y),
        with_edge(tied, hung, z, x),
        z == 0 || z == x,
        (x == node && y == other) || (x == other && y == node),
        0 <= node < start.len(),
        kept_so_far(start, before, node, pbranch, sbranch),
        all_kept(hung, fin, other, pnext, snext),
        forall|rank: spec_fn(Seq<char>) -> int|
            #[trigger] in_rank(fin, rank) && path_above(start, pbranch, node, rank) && path_below(
                start,
                sbranch,
                node,
                rank,
            ) ==> path_above(hung, pnext, other, rank) && path_below(hung, snext, other, rank),
    ensures
        kept_so_far(start, fin, node, pbranch, sbranch),
{
    lemma_built_trans(before, taken, hung);
    lemma_built_trans(before, hung, fin);
    assert forall|rank: spec_fn(Seq<char>) -> int|
        #[trigger] in_rank(fin, rank) && path_above(start, pbranch, node, rank) && path_below(
            start,
            sbranch,
            node,
            rank,
        ) implies linked_but(start, fin, node) by {
        lemma_in_rank_stays(before, fin, rank);
        assert(linked_but(start, before, node));
        assert(complete(hung, fin, other));
        lemma_no_edge_more(before, taken);
        lemma_one_edge_more(taken, tied, x, y);
        lemma_one_edge_more(tied, hung, z, x);
        assert forall|u: int, v: usize| 0 <= u < fin.len() && #[trigger] new_edge(
            before,
            fin,
            u,
            v,
        ) implies (v == node || all_linked(fin, v as int)) && (u == 0 || u == node || all_linked(
            fin,
            u,
        )) by {
            if u < hung.len() && hung[u].predecessors@.contains(v) {
                assert(tied[u].predecessors@.contains(v) || (u == z && v == x));
                if tied[u].predecessors@.contains(v) {
                    assert(taken[u].predecessors@.contains(v) || (u == x && v == y));
                }
            } else {
                assert(new_edge(hung, fin, u, v));
            }
        }
        lemma_linked_but_grows(start, before, fin, node);
    }
}

/// Where what the topics declare holds no cycle, a node whose topics are
/// linked unless they are on the path has everything that it declares.
pub proof fn lemma_kept_at_last<T>(
    start: Seq<Node<T>>,
    fin: Seq<Node<T>>,
    node: usize,
    pbranch: Seq<usize>,
    sbranch: Seq<usize>,
)
    requires
        built(start, fin),
        well_formed(fin),
        node < start.len(),
        branch_in(pbranch, start),
        branch_in(sbranch, start),
        kept_so_far(start, fin, node as int, pbranch, sbranch),
        all_after_linked(start, fin, node, pbranch),
        all_before_joined(start, fin, node, sbranch),
    ensures
        all_kept(start, fin, node as int, pbranch, sbranch),
{
    assert(kept_at(start, fin, node as int));
    assert forall|rank: spec_fn(Seq<char>) -> int|
        #[trigger] in_rank(fin, rank) && path_above(start, pbranch, node as int, rank) && path_below(
            start,
            sbranch,
            node as int,
            rank,
        ) implies complete(start, fin, node as int) by {
        assert(linked_but(start, fin, node as int));
        assert forall|k: int| 0 <= k < fin[node as int].after@.len() implies #[trigger] after_linked(
            fin,
            node as int,
            Seq::<usize>::empty(),
            k,
        ) by {
            assert(after_linked(fin, node as int, pbranch, k));
            let id = clean_path(fin[node as int].after@[k]@);
            let p = index_of_id(fin, id);
            assert(rank(id) < rank(fin[node as int].path@));
            assert(fin[p].path@ == id);
            if pbranch.contains(p as usize) {
                let m = choose|m: int| 0 <= m < pbranch.len() && pbranch[m] == p as usize;
                assert(kept_at(start, fin, pbranch[m] as int));
            }
        }
        assert forall|k: int| 0 <= k < fin[node as int].before@.len() implies #[trigger] before_joined(
            fin,
            node as int,
            Seq::<usize>::empty(),
            k,
        ) by {
            assert(before_joined(fin, node as int, sbranch, k));
            let id = clean_path(fin[node as int].before@[k]@);
            let s = index_of_id(fin, id);
            assert(rank(fin[node as int].path@) < rank(id));
            assert(fin[s].path@ == id);
            if sbranch.contains(s as usize) {
                let m = choose|m: int| 0 <= m < sbranch.len() && sbranch[m] == s as usize;
                assert(kept_at(start, fin, sbranch[m] as int));
            }
        }
    }
}

/// Going on from `node` to a topic that it comes before: the path with
/// `node` lies below the topic.
pub proof fn lemma_path_below_next<T>(
    start: Seq<Node<T>>,
    hung: Seq<Node<T>>,
    fin: Seq<Node<T>>,
    sbranch: Seq<usize>,
    node: usize,
    s: int,
    k: int,
    rank: spec_fn(Seq<char>) -> int,
)
    requires
        built(start, hung),
        built(hung, fin),
        branch_in(sbranch, start),
        node < start.len(),
        0 <= s < hung.len(),
        0 <= k < hung[node as int].before@.len(),
        clean_path(hung[node as int].before@[k]@) == hung[s].path@,
        in_rank(fin, rank),
        path_below(start, sbranch, node as int, rank),
    ensures
        path_below(hung, with_member(sbranch, node), s, rank),
{
    let next = with_member(sbranch, node);
    assert(kept_at(start, hung, node as int));
    assert(kept_at(hung, fin, node as int));
    assert(fin[node as int].before@[k] == hung[node as int].before@[k]);
    assert(rank(hung[node as int].path@) < rank(hung[s].path@));
    assert forall|i: int| 0 <= i < next.len() implies rank(
        hung[(#[trigger] next[i]) as int].path@,
    ) < rank(hung[s].path@) by {
        if i < sbranch.len() {
            assert(next[i] == sbranch[i]);
            assert(kept_at(start, hung, sbranch[i] as int));
        }
    }
}

/// Going on from `node` to a topic that it comes after: the path with
/// `node` lies above the topic.
pub proof fn lemma_path_above_next<T>(
    start: Seq<Node<T>>,
    tied: Seq<Node<T>>,
    fin: Seq<Node<T>>,
    pbranch: Seq<usize>,
    node: usize,
    p: int,
    k: int,
    rank: spec_fn(Seq<char>) -> int,
)
    requires
        built(start, tied),
        built(tied, fin),
        branch_in(pbranch, start),
        node < start.len(),
        0 <= p < tied.len(),
        0 <= k < tied[node as int].after@.len(),
        clean_path(tied[node as int].after@[k]@) == tied[p].path@,
        in_rank(fin, rank),
        path_above(start, pbranch, node as int, rank),
    ensures
        path_above(tied, with_member(pbranch, node), p, rank),
{
    let next = with_member(pbranch, node);
    assert(kept_at(start, tied, node as int));
    assert(kept_at(tied, fin, node as int));
    assert(fin[node as int].after@[k] == tied[node as int].after@[k]);
    assert(rank(tied[p].path@) < rank(tied[node as int].path@));
    assert forall|i: int| 0 <= i < next.len() implies rank(tied[p].path@) < rank(
        tied[(#[trigger] next[i]) as int].path@,
    ) by {
        if i < pbranch.len() {
            assert(next[i] == pbranch[i]);
            assert(kept_at(start, tied, pbranch[i] as int));
        }
    }
}

/// Whether a build from `node` has come by `x`: it is `node`, or a
/// predecessor of some node, or a node other than the root with a
/// predecessor.
pub open spec fn reached<T>(nodes: Seq<Node<T>>, node: int, x: int) -> bool {
    ||| x == node
    ||| exists|u: int| 0 <= u < nodes.len() && (#[trigger] nodes[u]).predecessors@.contains(
        x as usize,
    )
    ||| (x != 0 && nodes[x].predecessors@.len() > 0)
}

/// Nothing that is declared is dropped: where a build from `node`
/// without a limit of depth began with no edge and with nothing on the
/// paths, and what the topics that it came by declare holds no cycle,
/// every node that it came by has every topic that it comes after as a
/// predecessor, and is a predecessor of every topic that it comes before.
pub proof fn lemma_nothing_dropped<T>(
    old: Seq<Node<T>>,
    new: Seq<Node<T>>,
    node: int,
    rank: spec_fn(Seq<char>) -> int,
    x: int,
)
    requires
        well_formed(old),
        well_formed(new),
        built(old, new),
        0 <= node < old.len(),
        forall|u: int| 0 <= u < old.len() ==> (#[trigger] old[u]).predecessors@.len() == 0,
        all_kept(old, new, node, Seq::<usize>::empty(), Seq::<usize>::empty()),
        in_rank(new, rank),
        0 <= x < new.len(),
        reached(new, node, x),
    ensures
        forall|k: int|
            #![trigger new[x].after@[k]]
            0 <= k < new[x].after@.len() ==> holds_id(new, clean_path(new[x].after@[k]@))
                && new[x].predecessors@.contains(
                index_of_id(new, clean_path(new[x].after@[k]@)) as usize,
            ),
        forall|k: int|
            #![trigger new[x].before@[k]]
            0 <= k < new[x].before@.len() ==> holds_id(new, clean_path(new[x].before@[k]@))
                && new[index_of_id(
                new,
                clean_path(new[x].before@[k]@),
            )].predecessors@.contains(x as usize),
{
    assert(complete(old, new, node));
    assert(all_linked(new, x)) by {
        if x != node {
            if exists|u: int|
                0 <= u < new.len() && (#[trigger] new[u]).predecessors@.contains(x as usize) {
                let u = choose|u: int|
                    0 <= u < new.len() && (#[trigger] new[u]).predecessors@.contains(x as usize);
                assert(new_edge(old, new, u, x as usize));
            } else {
                let v = new[x].predecessors@[0];
                assert(new[x].predecessors@.contains(v));
                assert(new_edge(old, new, x, v));
            }
        }
    }
    assert forall|k: int|
        #![trigger new[x].after@[k]]
        0 <= k < new[x].after@.len() implies holds_id(new, clean_path(new[x].after@[k]@))
        && new[x].predecessors@.contains(
        index_of_id(new, clean_path(new[x].after@[k]@)) as usize,
    ) by {
        assert(after_linked(new, x, Seq::<usize>::empty(), k));
        let id = clean_path(new[x].after@[k]@);
        assert(rank(id) < rank(new[x].path@));
    }
    assert forall|k: int|
        #![trigger new[x].before@[k]]
        0 <= k < new[x].before@.len() implies holds_id(new, clean_path(new[x].before@[k]@))
        && new[index_of_id(new, clean_path(new[x].before@[k]@))].predecessors@.contains(
        x as usize,
    ) by {
        assert(before_joined(new, x, Seq::<usize>::empty(), k));
        let id = clean_path(new[x].before@[k]@);
        assert(rank(new[x].path@) < rank(id));
    }
}

} // verus!
