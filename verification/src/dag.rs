//! The builder of the graph: from what the topics declare to its edges.
//!
//! From a node, the topics that it comes before are gone through first and
//! then the topics that it comes after. Each is linked unless it is on the
//! path of its direction, which would close a cycle, and the build goes on
//! into it where the edge is new. A path holds the nodes of one chain of
//! edges of one direction: going on into a topic that the node comes after
//! starts an empty forward path, going on into one that it comes before
//! starts an empty backward path.

use crate::branch::{with_member, BranchSet};
use crate::builder::{
    after_linked, all_after_linked, branch_in, built, kept_at, lemma_after_linked_stays,
    lemma_branch_in_stays, lemma_built_edge, lemma_built_node, lemma_built_refl, lemma_built_trans,
    lemma_id_stays, names, next_depth, pass_ready, read_failed,
};
use crate::counting::{count_below, lemma_count_le, lemma_count_less};
use crate::graph::{
    add_predecessor, edges_of, holds_id, well_formed, with_edge, Graph,
};
use crate::loader::{load_node, RecordLoadError};
use crate::node::Node;
use crate::ranks::{
    all_before_joined, all_kept, before_joined, in_rank, kept_so_far, lemma_before_joined_stays,
    lemma_kept_at_last, lemma_kept_on_descent, lemma_kept_on_load, lemma_path_above_next,
    lemma_path_below_next, path_above, path_below,
};
use crate::plan::{
    deeper, entries_of, found, lemma_found, lemma_loaded_is_taken_in, lemma_taken_in,
    lemma_with_edge_is_linked, linked, placed, places, steady, taken_in, Entry,
};
use crate::text::{clean, clean_path};
use vstd::prelude::*;

verus! {

/// The predicate "the pair with the number `i` is no edge", where the pair
/// of `x` and `y` has the number `x * n + y` among `n` nodes.
pub open spec fn no_edge(edges: Seq<Seq<usize>>) -> spec_fn(int) -> bool {
    |i: int| !edges[i / (edges.len() as int)].contains((i % (edges.len() as int)) as usize)
}

/// How many pairs of nodes are no edge.
pub open spec fn unlinked(edges: Seq<Seq<usize>>) -> nat {
    count_below((edges.len() * edges.len()) as int, no_edge(edges))
}

/// `b` has the nodes of `a` and every edge of `a`.
pub open spec fn holds_edges(a: Seq<Seq<usize>>, b: Seq<Seq<usize>>) -> bool {
    &&& a.len() == b.len()
    &&& forall|u: int, v: usize|
        0 <= u < a.len() && (#[trigger] a[u].contains(v)) ==> b[u].contains(v)
}

/// The pair of `x` and `y` has a number of its own.
pub proof fn lemma_pair_number(n: int, x: int, y: int)
    requires
        0 <= x < n,
        0 <= y < n,
    ensures
        0 <= x * n + y < n * n,
        (x * n + y) / n == x,
        (x * n + y) % n == y,
{
    assert(0 <= x * n + y < n * n) by (nonlinear_arith)
        requires
            0 <= x < n,
            0 <= y < n,
    ;
    vstd::arithmetic::div_mod::lemma_fundamental_div_mod_converse(x * n + y, n, x, y);
}

/// Every number below `n * n` is the number of a pair.
pub proof fn lemma_number_pair(n: int, i: int)
    requires
        0 <= n,
        0 <= i < n * n,
    ensures
        0 <= i / n < n,
        0 <= i % n < n,
{
    assert(n > 0) by (nonlinear_arith)
        requires
            0 <= n,
            0 <= i < n * n,
    ;
    vstd::arithmetic::div_mod::lemma_fundamental_div_mod(i, n);
    vstd::arithmetic::div_mod::lemma_mod_bound(i, n);
    assert(0 <= i / n < n) by (nonlinear_arith)
        requires
            0 <= i < n * n,
            n > 0,
            i == n * (i / n) + i % n,
            0 <= i % n < n,
    ;
}

/// More edges leave no more pairs without one.
pub proof fn lemma_unlinked_le(a: Seq<Seq<usize>>, b: Seq<Seq<usize>>)
    requires
        holds_edges(a, b),
    ensures
        unlinked(b) <= unlinked(a),
{
    let n = a.len() as int;
    assert forall|i: int| 0 <= i < n * n && #[trigger] no_edge(b)(i) implies no_edge(a)(i) by {
        lemma_number_pair(n, i);
        if a[i / n].contains((i % n) as usize) {
            assert(b[i / n].contains((i % n) as usize));
        }
    }
    lemma_count_le(n * n, no_edge(b), no_edge(a));
}

/// One edge more leaves one pair fewer without one, at least.
pub proof fn lemma_unlinked_less(a: Seq<Seq<usize>>, b: Seq<Seq<usize>>, x: int, y: usize)
    requires
        holds_edges(a, b),
        0 <= x < a.len(),
        y < a.len(),
        !a[x].contains(y),
        b[x].contains(y),
    ensures
        unlinked(b) < unlinked(a),
{
    let n = a.len() as int;
    assert forall|i: int| 0 <= i < n * n && #[trigger] no_edge(b)(i) implies no_edge(a)(i) by {
        lemma_number_pair(n, i);
        if a[i / n].contains((i % n) as usize) {
            assert(b[i / n].contains((i % n) as usize));
        }
    }
    lemma_pair_number(n, x, y as int);
    let i = x * n + y;
    assert(no_edge(a)(i));
    assert(!no_edge(b)(i));
    lemma_count_less(n * n, no_edge(b), no_edge(a), i);
}

/// The predecessor lists of all entries, by index.
pub open spec fn preds_of(g: Seq<Entry>) -> Seq<Seq<usize>> {
    Seq::new(g.len(), |i: int| g[i].preds)
}

/// The registry with the edge from `x` to `y` added: the predecessors of
/// `x` are the old ones and `y`, in the order of their identities, and
/// `y` is counted once more if it is new to them. Where the two are one
/// node, nothing changes. (Where no list is in that order, which cannot
/// be in a registry without two nodes of one identity, `y` is put last.)
pub open spec fn joined(g: Seq<Entry>, x: int, y: int) -> Seq<Entry> {
    if x != y {
        let chosen = placed(g, g[x].preds, y as usize);
        let list = if places(g, g[x].preds, y as usize, chosen) {
            chosen
        } else {
            g[x].preds.push(y as usize)
        };
        let listed = g.update(x, Entry { preds: list, ..g[x] });
        listed.update(
            y,
            Entry {
                fan: listed[y].fan + if g[x].preds.contains(y as usize) {
                    0nat
                } else {
                    1nat
                },
                ..listed[y]
            },
        )
    } else {
        g
    }
}

/// `b` holds the nodes of `a` with what they declare and with their
/// edges, and perhaps more of both.
pub open spec fn widened(a: Seq<Entry>, b: Seq<Entry>) -> bool {
    &&& a.len() <= b.len() <= usize::MAX
    &&& forall|i: int|
        0 <= i < a.len() ==> (#[trigger] b[i]).id == a[i].id && b[i].after == a[i].after
            && b[i].before == a[i].before
    &&& forall|i: int, v: usize|
        0 <= i < a.len() && (#[trigger] a[i].preds.contains(v)) ==> b[i].preds.contains(v)
}

/// What a build has made of `a`: `b`, which holds `a` and perhaps more.
/// (A `b` that does not hold `a`, which no build makes, is passed over.)
pub open spec fn held(a: Seq<Entry>, b: Seq<Entry>) -> Seq<Entry> {
    if widened(a, b) {
        b
    } else {
        a
    }
}

/// Widening carries over.
pub proof fn lemma_widened_trans(a: Seq<Entry>, b: Seq<Entry>, c: Seq<Entry>)
    requires
        widened(a, b),
        widened(b, c),
    ensures
        widened(a, c),
{
    assert forall|i: int| 0 <= i < a.len() implies (#[trigger] c[i]).id == a[i].id && c[i].after
        == a[i].after && c[i].before == a[i].before by {
        assert(b[i].id == a[i].id);
    }
    assert forall|i: int, v: usize| 0 <= i < a.len() && (#[trigger] a[i].preds.contains(
        v,
    )) implies c[i].preds.contains(v) by {
        assert(b[i].preds.contains(v));
    }
}

/// Adding an edge widens the registry, and the edge is there afterwards.
pub proof fn lemma_joined(g: Seq<Entry>, x: int, y: int)
    requires
        g.len() <= usize::MAX,
        0 <= x < g.len(),
        0 <= y < g.len(),
    ensures
        joined(g, x, y).len() == g.len(),
        widened(g, joined(g, x, y)),
        x != y ==> joined(g, x, y)[x].preds.contains(y as usize),
{
    if x != y {
        let chosen = placed(g, g[x].preds, y as usize);
        if !places(g, g[x].preds, y as usize, chosen) {
            let list = g[x].preds.push(y as usize);
            assert(list[g[x].preds.len() as int] == y as usize);
            assert forall|v: usize| g[x].preds.contains(v) implies list.contains(v) by {
                let m = choose|m: int| 0 <= m < g[x].preds.len() && g[x].preds[m] == v;
                assert(list[m] == v);
            }
        }
    }
}

/// Asking for a node widens the registry.
pub proof fn lemma_taken_widened<T, U, R: Fn(&String) -> Option<U>, C: Fn(&String, U) -> Node<T>>(
    read: R,
    create: C,
    g: Seq<Entry>,
    path: Seq<char>,
)
    requires
        g.len() <= usize::MAX,
        taken_in(read, create, g, path) is Some,
    ensures
        ({
            let got = taken_in(read, create, g, path).unwrap();
            widened(g, got.0)
        }),
{
    lemma_taken_in(read, create, g, path);
}

/// Whether a topic is skipped: it is known and on the path.
pub open spec fn on_branch(known: Option<int>, branch: Seq<usize>) -> bool {
    match known {
        Some(p) => branch.contains(p as usize),
        None => false,
    }
}

/// What a build from `node` makes of the entries `g`; nothing if a record
/// cannot be read. In phase 0 the build begins: `node` goes on the
/// forward path and the topics that it comes before are gone through
/// (phase 1), unless `depth` is zero; then `node` goes on the backward
/// path and the topics that it comes after are gone through (phase 2).
/// In phases 1 and 2, `k` is the number of the topic that is next. A topic
/// on the path of its direction is skipped. Any other is asked for; where
/// the edge to it is not there yet, it is added (in phase 1 with an edge
/// that hangs the topic from the root) and the build goes on into the
/// topic with an empty path of the other direction.
pub open spec fn dag_pass<T, U, R: Fn(&String) -> Option<U>, C: Fn(&String, U) -> Node<T>>(
    read: R,
    create: C,
    g: Seq<Entry>,
    pbranch: Seq<usize>,
    sbranch: Seq<usize>,
    node: int,
    depth: i64,
    phase: int,
    k: int,
) -> Option<Seq<Entry>>
    decreases
            usize::MAX - g.len(),
            unlinked(preds_of(g)),
            2 - phase,
            (if phase == 1 {
                g[node].before.len()
            } else {
                g[node].after.len()
            }) - k,
    when g.len() <= usize::MAX && 0 <= node < g.len() && 0 <= k && 0 <= phase <= 2
    via dag_pass_decreases::<T, U, R, C>
{
    if phase == 0 {
        if depth != 0 {
            dag_pass(
                read,
                create,
                g,
                pbranch,
                with_member(sbranch, node as usize),
                node,
                depth,
                1,
                0,
            )
        } else {
            dag_pass(
                read,
                create,
                g,
                with_member(pbranch, node as usize),
                sbranch,
                node,
                depth,
                2,
                0,
            )
        }
    } else if phase == 1 {
        if k >= g[node].before.len() {
            dag_pass(
                read,
                create,
                g,
                with_member(pbranch, node as usize),
                sbranch,
                node,
                depth,
                2,
                0,
            )
        } else if on_branch(found(g, clean_path(g[node].before[k])), sbranch) {
            dag_pass(read, create, g, pbranch, sbranch, node, depth, 1, k + 1)
        } else {
            match taken_in(read, create, g, g[node].before[k]) {
                Some(got) => if got.1 == node || got.0[got.1].preds.contains(node as usize) {
                    dag_pass(read, create, got.0, pbranch, sbranch, node, depth, 1, k + 1)
                } else {
                    let hung = joined(joined(got.0, got.1, node), 0, got.1);
                    match dag_pass(
                        read,
                        create,
                        hung,
                        Seq::<usize>::empty(),
                        sbranch,
                        got.1,
                        deeper(depth),
                        0,
                        0,
                    ) {
                        Some(below) => dag_pass(
                            read,
                            create,
                            held(hung, below),
                            pbranch,
                            sbranch,
                            node,
                            depth,
                            1,
                            k + 1,
                        ),
                        None => None,
                    }
                },
                None => None,
            }
        }
    } else {
        if k >= g[node].after.len() {
            Some(g)
        } else if on_branch(found(g, clean_path(g[node].after[k])), pbranch) {
            dag_pass(read, create, g, pbranch, sbranch, node, depth, 2, k + 1)
        } else {
            match taken_in(read, create, g, g[node].after[k]) {
                Some(got) => if got.1 == node || got.0[node].preds.contains(got.1 as usize) {
                    dag_pass(read, create, got.0, pbranch, sbranch, node, depth, 2, k + 1)
                } else {
                    let tied = joined(got.0, node, got.1);
                    match dag_pass(
                        read,
                        create,
                        tied,
                        pbranch,
                        Seq::<usize>::empty(),
                        got.1,
                        deeper(depth),
                        0,
                        0,
                    ) {
                        Some(below) => dag_pass(
                            read,
                            create,
                            held(tied, below),
                            pbranch,
                            sbranch,
                            node,
                            depth,
                            2,
                            k + 1,
                        ),
                        None => None,
                    }
                },
                None => None,
            }
        }
    }
}

/// Whatever a build has made of a registry with one edge more than `g`
/// leaves a smaller measure than `g`.
proof fn lemma_held_is_less(g: Seq<Entry>, got: Seq<Entry>, more: Seq<Entry>, x: int, y: usize)
    requires
        g.len() <= usize::MAX,
        widened(g, got),
        got.len() == g.len() ==> got == g,
        widened(got, more),
        more.len() == got.len(),
        0 <= x < got.len(),
        y < got.len(),
        !got[x].preds.contains(y),
        more[x].preds.contains(y),
    ensures
        more.len() > g.len() || (more.len() == g.len() && unlinked(preds_of(more)) < unlinked(
            preds_of(g),
        )),
        forall|z: Seq<Entry>|
            (#[trigger] held(more, z)).len() <= usize::MAX && (held(more, z).len() > g.len() || (
            held(more, z).len() == g.len() && unlinked(preds_of(held(more, z))) < unlinked(
                preds_of(g),
            ))),
        forall|z: Seq<Entry>, i: int|
            0 <= i < g.len() ==> (#[trigger] held(more, z)[i]).after == g[i].after && held(
                more,
                z,
            )[i].before == g[i].before,
{
    lemma_widened_trans(g, got, more);
    if more.len() == g.len() {
        assert(holds_edges(preds_of(g), preds_of(more))) by {
            assert forall|u: int, v: usize|
                0 <= u < g.len() && (#[trigger] preds_of(g)[u].contains(v)) implies preds_of(
                more,
            )[u].contains(v) by {
                assert(g[u].preds.contains(v));
            }
        }
        lemma_unlinked_less(preds_of(g), preds_of(more), x, y);
    }
    assert forall|z: Seq<Entry>|
        (#[trigger] held(more, z)).len() <= usize::MAX && (held(more, z).len() > g.len() || (held(
            more,
            z,
        ).len() == g.len() && unlinked(preds_of(held(more, z))) < unlinked(preds_of(g)))) by {
        let h = held(more, z);
        if h.len() == g.len() {
            assert(holds_edges(preds_of(more), preds_of(h))) by {
                assert forall|u: int, v: usize|
                    0 <= u < more.len() && (#[trigger] preds_of(more)[u].contains(
                        v,
                    )) implies preds_of(h)[u].contains(v) by {
                    assert(more[u].preds.contains(v));
                }
            }
            lemma_unlinked_le(preds_of(more), preds_of(h));
        }
    }
    assert forall|z: Seq<Entry>, i: int| 0 <= i < g.len() implies (#[trigger] held(
        more,
        z,
    )[i]).after == g[i].after && held(more, z)[i].before == g[i].before by {
        let h = held(more, z);
        assert(more[i].id == g[i].id);
        if widened(more, z) {
            assert(z[i].id == more[i].id);
        }
    }
}

#[via_fn]
proof fn dag_pass_decreases<T, U, R: Fn(&String) -> Option<U>, C: Fn(&String, U) -> Node<T>>(
    read: R,
    create: C,
    g: Seq<Entry>,
    pbranch: Seq<usize>,
    sbranch: Seq<usize>,
    node: int,
    depth: i64,
    phase: int,
    k: int,
) {
    if phase == 1 && k < g[node].before.len() && !on_branch(
        found(g, clean_path(g[node].before[k])),
        sbranch,
    ) {
        if taken_in(read, create, g, g[node].before[k]) is Some {
            let got = taken_in(read, create, g, g[node].before[k])->0;
            lemma_taken_in(read, create, g, g[node].before[k]);
            lemma_taken_widened(read, create, g, g[node].before[k]);
            if !(got.1 == node || got.0[got.1].preds.contains(node as usize)) {
                let tied = joined(got.0, got.1, node);
                let hung = joined(tied, 0, got.1);
                lemma_joined(got.0, got.1, node);
                lemma_joined(tied, 0, got.1);
                lemma_widened_trans(got.0, tied, hung);
                assert(hung[got.1].preds.contains(node as usize));
                lemma_held_is_less(g, got.0, hung, got.1, node as usize);
            }
        }
    }
    if phase == 2 && k < g[node].after.len() && !on_branch(
        found(g, clean_path(g[node].after[k])),
        pbranch,
    ) {
        if taken_in(read, create, g, g[node].after[k]) is Some {
            let got = taken_in(read, create, g, g[node].after[k])->0;
            lemma_taken_in(read, create, g, g[node].after[k]);
            lemma_taken_widened(read, create, g, g[node].after[k]);
            if !(got.1 == node || got.0[node].preds.contains(got.1 as usize)) {
                let tied = joined(got.0, node, got.1);
                lemma_joined(got.0, node, got.1);
                lemma_held_is_less(g, got.0, tied, node, got.1 as usize);
            }
        }
    }
}

/// How a build begins.
pub proof fn lemma_dag_begin<T, U, R: Fn(&String) -> Option<U>, C: Fn(&String, U) -> Node<T>>(
    read: R,
    create: C,
    g: Seq<Entry>,
    pbranch: Seq<usize>,
    sbranch: Seq<usize>,
    node: int,
    depth: i64,
)
    requires
        g.len() <= usize::MAX,
        0 <= node < g.len(),
    ensures
        dag_pass(read, create, g, pbranch, sbranch, node, depth, 0, 0) == if depth != 0 {
            dag_pass(
                read,
                create,
                g,
                pbranch,
                with_member(sbranch, node as usize),
                node,
                depth,
                1,
                0,
            )
        } else {
            dag_pass(
                read,
                create,
                g,
                with_member(pbranch, node as usize),
                sbranch,
                node,
                depth,
                2,
                0,
            )
        },
{
}

/// What a build does with the `k`-th topic that the node comes before.
pub proof fn lemma_dag_before<T, U, R: Fn(&String) -> Option<U>, C: Fn(&String, U) -> Node<T>>(
    read: R,
    create: C,
    g: Seq<Entry>,
    pbranch: Seq<usize>,
    sbranch: Seq<usize>,
    node: int,
    depth: i64,
    k: int,
)
    requires
        g.len() <= usize::MAX,
        0 <= node < g.len(),
        0 <= k,
    ensures
        dag_pass(read, create, g, pbranch, sbranch, node, depth, 1, k) == if k
            >= g[node].before.len() {
            dag_pass(
                read,
                create,
                g,
                with_member(pbranch, node as usize),
                sbranch,
                node,
                depth,
                2,
                0,
            )
        } else if on_branch(found(g, clean_path(g[node].before[k])), sbranch) {
            dag_pass(read, create, g, pbranch, sbranch, node, depth, 1, k + 1)
        } else {
            match taken_in(read, create, g, g[node].before[k]) {
                Some(got) => if got.1 == node || got.0[got.1].preds.contains(node as usize) {
                    dag_pass(read, create, got.0, pbranch, sbranch, node, depth, 1, k + 1)
                } else {
                    let hung = joined(joined(got.0, got.1, node), 0, got.1);
                    match dag_pass(
                        read,
                        create,
                        hung,
                        Seq::<usize>::empty(),
                        sbranch,
                        got.1,
                        deeper(depth),
                        0,
                        0,
                    ) {
                        Some(below) => dag_pass(
                            read,
                            create,
                            held(hung, below),
                            pbranch,
                            sbranch,
                            node,
                            depth,
                            1,
                            k + 1,
                        ),
                        None => None,
                    }
                },
                None => None,
            }
        },
{
}

/// What a build does with the `k`-th topic that the node comes after.
pub proof fn lemma_dag_after<T, U, R: Fn(&String) -> Option<U>, C: Fn(&String, U) -> Node<T>>(
    read: R,
    create: C,
    g: Seq<Entry>,
    pbranch: Seq<usize>,
    sbranch: Seq<usize>,
    node: int,
    depth: i64,
    k: int,
)
    requires
        g.len() <= usize::MAX,
        0 <= node < g.len(),
        0 <= k,
    ensures
        dag_pass(read, create, g, pbranch, sbranch, node, depth, 2, k) == if k
            >= g[node].after.len() {
            Some(g)
        } else if on_branch(found(g, clean_path(g[node].after[k])), pbranch) {
            dag_pass(read, create, g, pbranch, sbranch, node, depth, 2, k + 1)
        } else {
            match taken_in(read, create, g, g[node].after[k]) {
                Some(got) => if got.1 == node || got.0[node].preds.contains(got.1 as usize) {
                    dag_pass(read, create, got.0, pbranch, sbranch, node, depth, 2, k + 1)
                } else {
                    let tied = joined(got.0, node, got.1);
                    match dag_pass(
                        read,
                        create,
                        tied,
                        pbranch,
                        Seq::<usize>::empty(),
                        got.1,
                        deeper(depth),
                        0,
                        0,
                    ) {
                        Some(below) => dag_pass(
                            read,
                            create,
                            held(tied, below),
                            pbranch,
                            sbranch,
                            node,
                            depth,
                            2,
                            k + 1,
                        ),
                        None => None,
                    }
                },
                None => None,
            }
        },
{
}

/// Adding an edge to a registry does to its entries what [`joined`] says.
pub proof fn lemma_with_edge_is_joined<T>(old: Seq<Node<T>>, new: Seq<Node<T>>, x: int, y: int)
    requires
        well_formed(old),
        0 <= x < old.len(),
        0 <= y < old.len(),
        with_edge(old, new, x, y),
    ensures
        entries_of(new) == joined(entries_of(old), x, y),
{
    lemma_with_edge_is_linked(old, new, x, y);
    assert(joined(entries_of(old), x, y) == linked(entries_of(old), x, y));
}

/// What is built from a registry is wider than it.
pub proof fn lemma_built_is_widened<T>(a: Seq<Node<T>>, b: Seq<Node<T>>)
    requires
        built(a, b),
        b.len() <= usize::MAX,
    ensures
        widened(entries_of(a), entries_of(b)),
{
    assert forall|i: int| 0 <= i < a.len() implies (#[trigger] entries_of(b)[i]).id == entries_of(
        a,
    )[i].id && entries_of(b)[i].after == entries_of(a)[i].after && entries_of(b)[i].before
        == entries_of(a)[i].before by {
        assert(kept_at(a, b, i));
    }
    assert forall|i: int, v: usize|
        0 <= i < a.len() && (#[trigger] entries_of(a)[i].preds.contains(v)) implies entries_of(
        b,
    )[i].preds.contains(v) by {
        assert(kept_at(a, b, i));
    }
}

/// A build that has added an edge, or a node, has made the measure of
/// what is left to do smaller.
pub proof fn lemma_descent_is_less<T>(a: Seq<Node<T>>, b: Seq<Node<T>>, x: int, y: usize)
    requires
        built(a, b),
        0 <= x < b.len(),
        y < b.len(),
        b[x].predecessors@.contains(y),
        !(x < a.len() && a[x].predecessors@.contains(y)),
    ensures
        b.len() > a.len() || unlinked(edges_of(b)) < unlinked(edges_of(a)),
{
    if b.len() == a.len() {
        assert forall|u: int, v: usize|
            0 <= u < a.len() && (#[trigger] edges_of(a)[u].contains(v)) implies edges_of(
            b,
        )[u].contains(v) by {
            assert(kept_at(a, b, u));
        }
        lemma_unlinked_less(edges_of(a), edges_of(b), x, y);
    }
}

/// A path with one node more names nodes of the registry.
pub proof fn lemma_branch_with_member<T>(members: Seq<usize>, x: usize, nodes: Seq<Node<T>>)
    requires
        branch_in(members, nodes),
        x < nodes.len(),
    ensures
        branch_in(with_member(members, x), nodes),
        with_member(members, x).contains(x),
        forall|v: usize|
            with_member(members, x).contains(v) <==> members.contains(v) || v == x,
{
    let more = with_member(members, x);
    if !members.contains(x) {
        assert(more[members.len() as int] == x);
        assert forall|i: int| 0 <= i < more.len() implies (#[trigger] more[i]) < nodes.len() by {
            if i < members.len() {
                assert(more[i] == members[i]);
            }
        }
        assert forall|v: usize| more.contains(v) <==> members.contains(v) || v == x by {
            if members.contains(v) {
                let m = choose|m: int| 0 <= m < members.len() && members[m] == v;
                assert(more[m] == v);
            }
            if more.contains(v) {
                let m = choose|m: int| 0 <= m < more.len() && more[m] == v;
                if m < members.len() {
                    assert(members[m] == v);
                }
            }
        }
    }
}

/// Builds the graph from `node`. The topics that `node` comes before are
/// gone through first, unless `sdepth` is zero, with `node` on the forward
/// path; then the topics that it comes after, with `node` on the backward
/// path. A topic on the path of its direction is skipped, which breaks
/// every cycle in what the topics declare. Any other is loaded if need be
/// and linked: a topic that `node` comes before gets `node` as a
/// predecessor and is hung from the root; a topic that it comes after
/// becomes a predecessor of `node`. Where the edge is new, the build goes
/// on from the topic, with an empty path of the other direction and with
/// `sdepth` counted down if it is positive (negative: without limit).
pub fn build_dag_from_nodes<T, U, R, C>(
    node: usize,
    nodes: &mut Graph<T>,
    pbranch: &mut BranchSet,
    sbranch: &mut BranchSet,
    read_from_file: &R,
    create_node: &C,
    sdepth: i64,
) -> (r: Result<(), RecordLoadError>) where
    R: Fn(&String) -> Option<U>,
    C: Fn(&String, U) -> Node<T>,

    requires
        pass_ready(old(nodes)@, node, old(pbranch)@, old(sbranch)@),
        forall|s: &String| call_requires(*read_from_file, (s,)),
        forall|s: &String, u: U| call_requires(*create_node, (s, u)),
    ensures
        final(nodes).wf(),
        built(old(nodes)@, final(nodes)@),
        match r {
            Ok(_) => {
                &&& final(pbranch)@ == old(pbranch)@
                &&& final(sbranch)@ == old(sbranch)@
                &&& all_after_linked(old(nodes)@, final(nodes)@, node, old(pbranch)@)
                &&& sdepth != 0 ==> all_before_joined(
                    old(nodes)@,
                    final(nodes)@,
                    node,
                    old(sbranch)@,
                )
            },
            Err(e) => read_failed(*read_from_file, e.id@),
        },
        r is Ok && sdepth < 0 ==> all_kept(
            old(nodes)@,
            final(nodes)@,
            node as int,
            old(pbranch)@,
            old(sbranch)@,
        ),
        steady(*read_from_file, *create_node) ==> match dag_pass(
            *read_from_file,
            *create_node,
            entries_of(old(nodes)@),
            old(pbranch)@,
            old(sbranch)@,
            node as int,
            sdepth,
            0,
            0,
        ) {
            Some(g) => r is Ok && entries_of(final(nodes)@) == g,
            None => r is Err,
        },
    decreases usize::MAX - old(nodes)@.len(), unlinked(edges_of(old(nodes)@)),
{
    let ghost start = nodes@;
    let ghost pb0 = pbranch@;
    let ghost sb0 = sbranch@;
    let ghost sb1 = if sdepth != 0 {
        with_member(sb0, node)
    } else {
        sb0
    };
    let ghost pb1 = with_member(pb0, node);
    let ghost goal = dag_pass(
        *read_from_file,
        *create_node,
        entries_of(start),
        pb0,
        sb0,
        node as int,
        sdepth,
        0,
        0,
    );
    let root = nodes.root();
    proof {
        lemma_built_refl(start);
        lemma_dag_begin(*read_from_file, *create_node, entries_of(start), pb0, sb0, node as int, sdepth);
        lemma_branch_with_member(sb0, node, start);
        lemma_branch_with_member(pb0, node, start);
    }
    if sdepth != 0 {
        let on_sbranch = sbranch.insert(node);
        let count = nodes.nodes[node].before.len();
        let mut k: usize = 0;
        while k < count
            invariant
                pass_ready(start, node, pb0, sb1),
                start == old(nodes)@,
                pb0 == old(pbranch)@,
                sb0 == old(sbranch)@,
                sb1 == with_member(sb0, node),
                sb1.contains(node),
                pbranch@ == pb0,
                sbranch@ == sb1,
                root == 0,
                nodes.wf(),
                built(start, nodes@),
                count == start[node as int].before@.len(),
                k <= count,
                forall|s: &String| call_requires(*read_from_file, (s,)),
                forall|s: &String, u: U| call_requires(*create_node, (s, u)),
                forall|j: int| 0 <= j < k ==> #[trigger] before_joined(nodes@, node as int, sb1, j),
                sdepth != 0,
                sdepth < 0 ==> kept_so_far(start, nodes@, node as int, pb0, sb0),
            branch_in(pb0, start),
            branch_in(sb0, start),
                steady(*read_from_file, *create_node) ==> dag_pass(
                    *read_from_file,
                    *create_node,
                    entries_of(nodes@),
                    pb0,
                    sb1,
                    node as int,
                    sdepth,
                    1,
                    k as int,
                ) == dag_pass(
                    *read_from_file,
                    *create_node,
                    entries_of(old(nodes)@),
                    old(pbranch)@,
                    old(sbranch)@,
                    node as int,
                    sdepth,
                    0,
                    0,
                ),
            decreases count - k,
        {
            let ghost before = nodes@;
            proof {
                assert(kept_at(start, before, node as int));
            }
            let raw = nodes.nodes[node].before[k].clone();
            let id = clean(&raw);
            let known = nodes.find(&id);
            let cycle = match known {
                Some(s) => sbranch.contains(s),
                None => false,
            };
            proof {
                lemma_found(before, id@);
                assert(entries_of(before)[node as int].before[k as int] == raw@);
                assert(cycle == on_branch(found(entries_of(before), id@), sb1));
                lemma_dag_before(
                    *read_from_file,
                    *create_node,
                    entries_of(before),
                    pb0,
                    sb1,
                    node as int,
                    sdepth,
                    k as int,
                );
            }
            if !cycle {
                let loaded = load_node(nodes, &raw, read_from_file, create_node);
                let ghost taken = nodes@;
                proof {
                    if steady(*read_from_file, *create_node) {
                        lemma_loaded_is_taken_in(
                            before,
                            taken,
                            raw@,
                            loaded,
                            *read_from_file,
                            *create_node,
                        );
                    }
                    if holds_id(before, id@) || loaded is Err {
                        lemma_built_refl(before);
                    } else {
                        lemma_built_node(before, taken);
                    }
                    lemma_built_trans(start, before, taken);
                    if sdepth < 0 {
                        lemma_kept_on_load(start, before, taken, node as int, pb0, sb0);
                    }
                }
                let s = match loaded {
                    Ok(s) => s,
                    Err(e) => {
                        return Err(e);
                    },
                };
                proof {
                    assert(s != node);
                    assert(kept_at(start, taken, node as int));
                    assert(names(taken[node as int].before@, taken[s as int].path@)) by {
                        assert(clean_path(taken[node as int].before@[k as int]@) == id@);
                    }
                    lemma_branch_in_stays(sb1, start, taken);
                }
                let already = nodes.nodes[s].has_predecessor(node);
                if !already {
                    add_predecessor(nodes, s, node);
                    let ghost tied = nodes@;
                    add_predecessor(nodes, root, s);
                    let ghost hung = nodes@;
                    proof {
                        lemma_with_edge_is_joined(taken, tied, s as int, node as int);
                        lemma_with_edge_is_joined(tied, hung, root as int, s as int);
                        lemma_built_edge(taken, tied, s as int, node as int);
                        assert(kept_at(taken, tied, node as int));
                        assert(kept_at(taken, tied, s as int));
                        assert(names(tied[node as int].before@, tied[s as int].path@));
                        lemma_built_edge(tied, hung, root as int, s as int);
                        lemma_built_trans(taken, tied, hung);
                        lemma_built_trans(start, taken, hung);
                        lemma_branch_in_stays(sb1, start, hung);
                        assert(kept_at(tied, hung, s as int));
                        assert(hung[s as int].predecessors@.contains(node));
                        if s < start.len() {
                            assert(kept_at(start, taken, s as int));
                        }
                        lemma_descent_is_less(start, hung, s as int, node);
                        lemma_id_stays(taken, hung, s as int);
                        assert(before_joined(hung, node as int, sb1, k as int));
                    }
                    let mut fresh = BranchSet::new();
                    proof {
                        assert(fresh@ =~= Seq::<usize>::empty());
                    }
                    let below = build_dag_from_nodes(
                        s,
                        nodes,
                        &mut fresh,
                        sbranch,
                        read_from_file,
                        create_node,
                        next_depth(sdepth),
                    );
                    proof {
                        lemma_built_trans(start, hung, nodes@);
                        lemma_built_trans(before, taken, hung);
                        lemma_built_trans(before, hung, nodes@);
                        lemma_built_is_widened(hung, nodes@);
                        if below is Ok && sdepth < 0 {
                            let fin = nodes@;
                            assert(kept_at(taken, hung, node as int));
                            assert(kept_at(taken, hung, s as int));
                            assert forall|rank: spec_fn(Seq<char>) -> int|
                                #[trigger] in_rank(fin, rank) && path_above(
                                    start,
                                    pb0,
                                    node as int,
                                    rank,
                                ) && path_below(start, sb0, node as int, rank) implies path_above(
                                hung,
                                Seq::<usize>::empty(),
                                s as int,
                                rank,
                            ) && path_below(hung, sb1, s as int, rank) by {
                                lemma_path_below_next(
                                    start,
                                    hung,
                                    fin,
                                    sb0,
                                    node,
                                    s as int,
                                    k as int,
                                    rank,
                                );
                            }
                            lemma_kept_on_descent(
                                start,
                                before,
                                taken,
                                tied,
                                hung,
                                fin,
                                node as int,
                                s as int,
                                s as int,
                                node as int,
                                0,
                                pb0,
                                sb0,
                                Seq::<usize>::empty(),
                                sb1,
                            );
                        }
                    }
                    match below {
                        Ok(_) => {},
                        Err(e) => {
                            return Err(e);
                        },
                    }
                    proof {
                        lemma_before_joined_stays(hung, nodes@, node as int, sb1, k as int);
                    }
                } else {
                    proof {
                        assert(before_joined(taken, node as int, sb1, k as int));
                    }
                }
            } else {
                proof {
                    lemma_built_refl(before);
                    assert(before_joined(before, node as int, sb1, k as int));
                }
            }
            proof {
                assert forall|j: int| 0 <= j < k implies #[trigger] before_joined(
                    nodes@,
                    node as int,
                    sb1,
                    j,
                ) by {
                    assert(before_joined(before, node as int, sb1, j));
                    lemma_before_joined_stays(before, nodes@, node as int, sb1, j);
                }
            }
            k = k + 1;
        }
        if on_sbranch {
            sbranch.remove(node);
        }
        proof {
            lemma_dag_before(
                *read_from_file,
                *create_node,
                entries_of(nodes@),
                pb0,
                sb1,
                node as int,
                sdepth,
                count as int,
            );
            assert(kept_at(start, nodes@, node as int));
        }
    }
    let ghost forward = nodes@;
    let on_pbranch = pbranch.insert(node);
    let count = nodes.nodes[node].after.len();
    let mut k: usize = 0;
    proof {
        assert(kept_at(start, forward, node as int));
    }
    while k < count
        invariant
            pass_ready(start, node, pb1, sb0),
            start == old(nodes)@,
            pb0 == old(pbranch)@,
            sb0 == old(sbranch)@,
            pb1 == with_member(pb0, node),
            pb1.contains(node),
            pbranch@ == pb1,
            sbranch@ == sb0,
            nodes.wf(),
            built(start, nodes@),
            built(forward, nodes@),
            well_formed(forward),
            count == start[node as int].after@.len(),
            k <= count,
            forall|s: &String| call_requires(*read_from_file, (s,)),
            forall|s: &String, u: U| call_requires(*create_node, (s, u)),
            forall|j: int| 0 <= j < k ==> #[trigger] after_linked(nodes@, node as int, pb1, j),
            sdepth < 0 ==> kept_so_far(start, nodes@, node as int, pb0, sb0),
            branch_in(pb0, start),
            branch_in(sb0, start),
            sdepth != 0 ==> forall|j: int|
                0 <= j < start[node as int].before@.len() ==> #[trigger] before_joined(
                    forward,
                    node as int,
                    sb1,
                    j,
                ),
            steady(*read_from_file, *create_node) ==> dag_pass(
                *read_from_file,
                *create_node,
                entries_of(nodes@),
                pb1,
                sb1,
                node as int,
                sdepth,
                2,
                k as int,
            ) == dag_pass(
                *read_from_file,
                *create_node,
                entries_of(old(nodes)@),
                old(pbranch)@,
                old(sbranch)@,
                node as int,
                sdepth,
                0,
                0,
            ),
        decreases count - k,
    {
        let ghost before = nodes@;
        proof {
            assert(kept_at(start, before, node as int));
        }
        let raw = nodes.nodes[node].after[k].clone();
        let id = clean(&raw);
        let known = nodes.find(&id);
        let cycle = match known {
            Some(p) => pbranch.contains(p),
            None => false,
        };
        proof {
            lemma_found(before, id@);
            assert(entries_of(before)[node as int].after[k as int] == raw@);
            assert(cycle == on_branch(found(entries_of(before), id@), pb1));
            lemma_dag_after(
                *read_from_file,
                *create_node,
                entries_of(before),
                pb1,
                sb1,
                node as int,
                sdepth,
                k as int,
            );
        }
        if !cycle {
            let loaded = load_node(nodes, &raw, read_from_file, create_node);
            let ghost taken = nodes@;
            proof {
                if steady(*read_from_file, *create_node) {
                    lemma_loaded_is_taken_in(
                        before,
                        taken,
                        raw@,
                        loaded,
                        *read_from_file,
                        *create_node,
                    );
                }
                if holds_id(before, id@) || loaded is Err {
                    lemma_built_refl(before);
                } else {
                    lemma_built_node(before, taken);
                }
                lemma_built_trans(start, before, taken);
                if sdepth < 0 {
                    lemma_kept_on_load(start, before, taken, node as int, pb0, sb0);
                }
            }
            let p = match loaded {
                Ok(p) => p,
                Err(e) => {
                    return Err(e);
                },
            };
            proof {
                assert(p != node);
                assert(kept_at(start, taken, node as int));
                assert(names(taken[node as int].after@, taken[p as int].path@)) by {
                    assert(clean_path(taken[node as int].after@[k as int]@) == id@);
                }
                lemma_branch_in_stays(pb1, start, taken);
            }
            let already = nodes.nodes[node].has_predecessor(p);
            if !already {
                add_predecessor(nodes, node, p);
                let ghost tied = nodes@;
                proof {
                    lemma_with_edge_is_joined(taken, tied, node as int, p as int);
                    lemma_built_edge(taken, tied, node as int, p as int);
                    lemma_built_trans(start, taken, tied);
                    lemma_branch_in_stays(pb1, start, tied);
                    lemma_descent_is_less(start, tied, node as int, p);
                    lemma_id_stays(taken, tied, p as int);
                    assert(after_linked(tied, node as int, pb1, k as int));
                }
                let mut fresh = BranchSet::new();
                proof {
                    assert(fresh@ =~= Seq::<usize>::empty());
                }
                let below = build_dag_from_nodes(
                    p,
                    nodes,
                    pbranch,
                    &mut fresh,
                    read_from_file,
                    create_node,
                    next_depth(sdepth),
                );
                proof {
                    lemma_built_trans(start, tied, nodes@);
                    lemma_built_trans(before, taken, tied);
                    lemma_built_trans(before, tied, nodes@);
                    lemma_built_is_widened(tied, nodes@);
                    if below is Ok && sdepth < 0 {
                        let fin = nodes@;
                        assert(kept_at(taken, tied, node as int));
                        assert(kept_at(taken, tied, p as int));
                        assert forall|rank: spec_fn(Seq<char>) -> int|
                            #[trigger] in_rank(fin, rank) && path_above(
                                start,
                                pb0,
                                node as int,
                                rank,
                            ) && path_below(start, sb0, node as int, rank) implies path_above(
                            tied,
                            pb1,
                            p as int,
                            rank,
                        ) && path_below(tied, Seq::<usize>::empty(), p as int, rank) by {
                            lemma_path_above_next(
                                start,
                                tied,
                                fin,
                                pb0,
                                node,
                                p as int,
                                k as int,
                                rank,
                            );
                        }
                        lemma_kept_on_descent(
                            start,
                            before,
                            taken,
                            tied,
                            tied,
                            fin,
                            node as int,
                            p as int,
                            node as int,
                            p as int,
                            node as int,
                            pb0,
                            sb0,
                            pb1,
                            Seq::<usize>::empty(),
                        );
                    }
                }
                match below {
                    Ok(_) => {},
                    Err(e) => {
                        return Err(e);
                    },
                }
                proof {
                    lemma_after_linked_stays(tied, nodes@, node as int, pb1, k as int);
                }
            } else {
                proof {
                    assert(after_linked(taken, node as int, pb1, k as int));
                }
            }
        } else {
            proof {
                lemma_built_refl(before);
                assert(after_linked(before, node as int, pb1, k as int));
            }
        }
        proof {
            lemma_built_trans(forward, before, nodes@);
            assert forall|j: int| 0 <= j < k implies #[trigger] after_linked(
                nodes@,
                node as int,
                pb1,
                j,
            ) by {
                assert(after_linked(before, node as int, pb1, j));
                lemma_after_linked_stays(before, nodes@, node as int, pb1, j);
            }
        }
        k = k + 1;
    }
    if on_pbranch {
        pbranch.remove(node);
    }
    proof {
        assert(kept_at(start, nodes@, node as int));
        assert(entries_of(nodes@)[node as int].after.len() == count);
        lemma_dag_after(
            *read_from_file,
            *create_node,
            entries_of(nodes@),
            pb1,
            sb1,
            node as int,
            sdepth,
            count as int,
        );
        assert forall|j: int|
            0 <= j < start[node as int].after@.len() implies #[trigger] after_linked(
            nodes@,
            node as int,
            pb0,
            j,
        ) by {
            assert(after_linked(nodes@, node as int, pb1, j));
        }
        if sdepth != 0 {
            assert forall|j: int|
                0 <= j < start[node as int].before@.len() implies #[trigger] before_joined(
                nodes@,
                node as int,
                sb0,
                j,
            ) by {
                assert(before_joined(forward, node as int, sb1, j));
                lemma_before_joined_stays(forward, nodes@, node as int, sb1, j);
            }
        }
        if sdepth < 0 {
            lemma_kept_at_last(start, nodes@, node, pb0, sb0);
        }
    }
    Ok(())
}

} // verus!
