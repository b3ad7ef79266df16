//! The builder: from what the topics declare to the edges of the graph.
//!
//! Two passes call each other. The backward pass makes the topics that a
//! node comes after its predecessors; the forward pass makes the node a
//! predecessor of the topics it comes before, and hangs those from the
//! root. Each pass goes on into the node it has linked. A topic that is
//! already on the path being explored in that direction is skipped, which
//! breaks every cycle in what the topics declare.

use crate::branch::{free, lemma_free_after_insert, BranchSet};
use crate::graph::{
    add_predecessor, add_successor, edges_of, holds_id, ids_unique, index_of_id,
    lemma_index_of_id, well_formed, with_edge, Graph,
};
use crate::loader::{load_node, with_node, RecordLoadError};
use crate::plan::{after_pass, before_pass, deeper, entries_of, found, lemma_after_pass_step, lemma_before_pass_step, lemma_built_is_grown, lemma_found, lemma_loaded_is_taken_in, lemma_with_edge_is_linked, linked, on_path, steady};
use crate::node::Node;
use crate::text::{clean, clean_path};
use vstd::prelude::*;

verus! {

/// Whether one of the paths in `list` stands for the identity `id`.
pub open spec fn names(list: Seq<String>, id: Seq<char>) -> bool {
    exists|k: int| 0 <= k < list.len() && clean_path((#[trigger] list[k])@) == id
}

/// Whether the topics declare an edge from `x` to `y`: `x` comes after
/// `y`, or `y` comes before `x`, or `x` is the root and `y` comes after
/// some topic.
pub open spec fn declared<T>(nodes: Seq<Node<T>>, x: int, y: int) -> bool {
    &&& x != y
    &&& {
        ||| names(nodes[x].after@, nodes[y].path@)
        ||| names(nodes[y].before@, nodes[x].path@)
        ||| (x == 0 && exists|z: int|
            0 <= z < nodes.len() && names((#[trigger] nodes[z]).before@, nodes[y].path@))
    }
}

/// Every node of `a` is a node of `b`.
pub open spec fn holds_all(a: Seq<usize>, b: Seq<usize>) -> bool {
    forall|v: usize| a.contains(v) ==> b.contains(v)
}

/// Node `i` of `old` is in `new` with its record and traversal state, and
/// with its predecessors and perhaps more.
pub open spec fn kept_at<T>(old: Seq<Node<T>>, new: Seq<Node<T>>, i: int) -> bool {
    &&& new[i].same_record(&old[i])
    &&& holds_all(old[i].predecessors@, new[i].predecessors@)
    &&& new[i].sorted == old[i].sorted
    &&& new[i].dag_cost == old[i].dag_cost
    &&& new[i].times_visited == old[i].times_visited
}

/// Whether `new` has an edge from `x` to `v` that `old` has not.
pub open spec fn new_edge<T>(old: Seq<Node<T>>, new: Seq<Node<T>>, x: int, v: usize) -> bool {
    new[x].predecessors@.contains(v) && !(x < old.len() && old[x].predecessors@.contains(v))
}

/// What a build may do to a registry: `new` holds the nodes of `old`
/// unchanged but for predecessors added to their lists, perhaps more
/// nodes, and no new edge but such as the topics declare.
pub open spec fn built<T>(old: Seq<Node<T>>, new: Seq<Node<T>>) -> bool {
    &&& old.len() <= new.len()
    &&& forall|i: int| 0 <= i < old.len() ==> #[trigger] kept_at(old, new, i)
    &&& forall|x: int, v: usize|
        0 <= x < new.len() && #[trigger] new_edge(old, new, x, v) ==> declared(new, x, v as int)
}

/// The `k`-th topic that `current` comes after has a node, and that node
/// is a predecessor of `current` unless it is `current` or on the path.
pub open spec fn after_linked<T>(
    nodes: Seq<Node<T>>,
    current: int,
    pbranch: Seq<usize>,
    k: int,
) -> bool {
    let id = clean_path(nodes[current].after@[k]@);
    holds_id(nodes, id) && {
        let p = index_of_id(nodes, id);
        pbranch.contains(p as usize) || p == current || nodes[current].predecessors@.contains(
            p as usize,
        )
    }
}

/// The `k`-th topic that `current` comes before has a node; unless it is
/// `current` or on the path, it has `current` as a predecessor and is
/// itself a predecessor of the root.
pub open spec fn before_linked<T>(
    nodes: Seq<Node<T>>,
    current: int,
    sbranch: Seq<usize>,
    k: int,
) -> bool {
    let id = clean_path(nodes[current].before@[k]@);
    holds_id(nodes, id) && {
        let s = index_of_id(nodes, id);
        sbranch.contains(s as usize) || s == current || (nodes[s].predecessors@.contains(
            current as usize,
        ) && (s == 0 || nodes[0].predecessors@.contains(s as usize)))
    }
}

/// Every member of the set is a node of the registry.
pub open spec fn branch_in<T>(members: Seq<usize>, nodes: Seq<Node<T>>) -> bool {
    forall|i: int| 0 <= i < members.len() ==> (#[trigger] members[i]) < nodes.len()
}

/// A registry is built from itself.
pub proof fn lemma_built_refl<T>(a: Seq<Node<T>>)
    ensures
        built(a, a),
{
    assert forall|i: int| 0 <= i < a.len() implies #[trigger] kept_at(a, a, i) by {}
}

/// What the topics of `b` declare, they declare in every registry built
/// from `b`.
pub proof fn lemma_declared_stays<T>(b: Seq<Node<T>>, c: Seq<Node<T>>, x: int, y: int)
    requires
        built(b, c),
        0 <= x < b.len(),
        0 <= y < b.len(),
        declared(b, x, y),
    ensures
        declared(c, x, y),
{
    assert(kept_at(b, c, x));
    assert(kept_at(b, c, y));
    if x == 0 && exists|z: int|
        0 <= z < b.len() && names((#[trigger] b[z]).before@, b[y].path@) {
        let z = choose|z: int| 0 <= z < b.len() && names((#[trigger] b[z]).before@, b[y].path@);
        assert(kept_at(b, c, z));
        assert(names(c[z].before@, c[y].path@));
    }
}

/// Building from what was built is building.
pub proof fn lemma_built_trans<T>(a: Seq<Node<T>>, b: Seq<Node<T>>, c: Seq<Node<T>>)
    requires
        built(a, b),
        built(b, c),
        well_formed(b),
    ensures
        built(a, c),
{
    assert forall|i: int| 0 <= i < a.len() implies #[trigger] kept_at(a, c, i) by {
        assert(kept_at(a, b, i));
        assert(kept_at(b, c, i));
    }
    assert forall|x: int, v: usize| 0 <= x < c.len() && #[trigger] new_edge(a, c, x, v) implies declared(
        c,
        x,
        v as int,
    ) by {
        if x < b.len() && b[x].predecessors@.contains(v) {
            let j = choose|j: int| 0 <= j < b[x].predecessors@.len() && b[x].predecessors@[j] == v;
            assert(edges_of(b)[x][j] == v);
            assert(edges_of(b)[x].no_duplicates());
            assert(v < b.len());
            assert(new_edge(a, b, x, v));
            lemma_declared_stays(b, c, x, v as int);
        } else {
            assert(new_edge(b, c, x, v));
        }
    }
}

/// Adding an edge that the topics declare is building.
pub proof fn lemma_built_edge<T>(a: Seq<Node<T>>, b: Seq<Node<T>>, x: int, y: int)
    requires
        well_formed(a),
        0 <= x < a.len(),
        0 <= y < a.len(),
        with_edge(a, b, x, y),
        x != y ==> declared(a, x, y),
    ensures
        built(a, b),
{
    if x != y {
        assert forall|i: int| 0 <= i < a.len() implies #[trigger] kept_at(a, b, i) by {
            if i != x && i != y {
                assert(b[i] == a[i]);
            }
        }
        assert forall|u: int, v: usize| 0 <= u < b.len() && #[trigger] new_edge(a, b, u, v) implies declared(
            b,
            u,
            v as int,
        ) by {
            if u != x {
                if u != y {
                    assert(b[u] == a[u]);
                }
            } else {
                assert(v == y);
                assert(kept_at(a, b, x));
                assert(kept_at(a, b, y));
                if x == 0 && exists|z: int|
                    0 <= z < a.len() && names((#[trigger] a[z]).before@, a[y].path@) {
                    let z = choose|z: int|
                        0 <= z < a.len() && names((#[trigger] a[z]).before@, a[y].path@);
                    assert(kept_at(a, b, z));
                    assert(names(b[z].before@, b[y].path@));
                }
            }
        }
    } else {
        lemma_built_refl(a);
    }
}

/// Taking in a node is building.
pub proof fn lemma_built_node<T>(a: Seq<Node<T>>, b: Seq<Node<T>>)
    requires
        with_node(a, b),
    ensures
        built(a, b),
{
    assert forall|i: int| 0 <= i < a.len() implies #[trigger] kept_at(a, b, i) by {
        assert(b[i] == a[i]);
    }
    assert forall|x: int, v: usize| 0 <= x < b.len() && #[trigger] new_edge(a, b, x, v) implies declared(
        b,
        x,
        v as int,
    ) by {
        if x < a.len() {
            assert(b[x] == a[x]);
        } else {
            let j = choose|j: int| 0 <= j < b[x].predecessors@.len() && b[x].predecessors@[j] == v;
        }
    }
}

/// A node found under an identity is found under it in every registry
/// built from this one.
pub proof fn lemma_id_stays<T>(b: Seq<Node<T>>, c: Seq<Node<T>>, i: int)
    requires
        built(b, c),
        ids_unique(c),
        0 <= i < b.len(),
    ensures
        holds_id(c, b[i].path@),
        index_of_id(c, b[i].path@) == i,
{
    assert(kept_at(b, c, i));
    lemma_index_of_id(c, i);
}

/// A node of a list is a node of every list that holds all its nodes.
pub proof fn lemma_prefix_contains(a: Seq<usize>, b: Seq<usize>, v: usize)
    requires
        holds_all(a, b),
        a.contains(v),
    ensures
        b.contains(v),
{
}

/// What the backward pass has linked stays linked while building goes on.
pub proof fn lemma_after_linked_stays<T>(
    b: Seq<Node<T>>,
    c: Seq<Node<T>>,
    current: int,
    pbranch: Seq<usize>,
    k: int,
)
    requires
        built(b, c),
        well_formed(b),
        ids_unique(c),
        0 <= current < b.len(),
        0 <= k < b[current].after@.len(),
        after_linked(b, current, pbranch, k),
    ensures
        after_linked(c, current, pbranch, k),
{
    let id = clean_path(b[current].after@[k]@);
    let p = index_of_id(b, id);
    assert(kept_at(b, c, current));
    lemma_id_stays(b, c, p);
    if b[current].predecessors@.contains(p as usize) {
        lemma_prefix_contains(b[current].predecessors@, c[current].predecessors@, p as usize);
    }
}

/// What the forward pass has linked stays linked while building goes on.
pub proof fn lemma_before_linked_stays<T>(
    b: Seq<Node<T>>,
    c: Seq<Node<T>>,
    current: int,
    sbranch: Seq<usize>,
    k: int,
)
    requires
        built(b, c),
        well_formed(b),
        ids_unique(c),
        0 <= current < b.len(),
        0 <= k < b[current].before@.len(),
        before_linked(b, current, sbranch, k),
    ensures
        before_linked(c, current, sbranch, k),
{
    let id = clean_path(b[current].before@[k]@);
    let s = index_of_id(b, id);
    assert(kept_at(b, c, current));
    assert(kept_at(b, c, 0));
    assert(kept_at(b, c, s));
    lemma_id_stays(b, c, s);
    if b[s].predecessors@.contains(current as usize) {
        lemma_prefix_contains(b[s].predecessors@, c[s].predecessors@, current as usize);
    }
    if b[0].predecessors@.contains(s as usize) {
        lemma_prefix_contains(b[0].predecessors@, c[0].predecessors@, s as usize);
    }
}

/// The depth that is left after one more step, where depth is counted.
pub fn next_depth(depth: i64) -> (r: i64)
    ensures
        depth > 0 ==> r == depth - 1,
        depth <= 0 ==> r == depth,
{
    if depth > 0 {
        depth - 1
    } else {
        depth
    }
}

/// Whether `read` can hand out nothing for the identity `id`.
pub open spec fn read_failed<U, R: Fn(&String) -> Option<U>>(read: R, id: Seq<char>) -> bool {
    exists|s: String| s@ == id && call_ensures(read, (&s,), None::<U>)
}

/// What both passes need: a well-formed registry that holds `current`,
/// and branch sets that name nodes of it.
pub open spec fn pass_ready<T>(
    nodes: Seq<Node<T>>,
    current: usize,
    pbranch: Seq<usize>,
    sbranch: Seq<usize>,
) -> bool {
    &&& well_formed(nodes)
    &&& current < nodes.len()
    &&& pbranch.no_duplicates()
    &&& sbranch.no_duplicates()
    &&& branch_in(pbranch, nodes)
    &&& branch_in(sbranch, nodes)
}

/// Every topic that `current` comes after is linked.
pub open spec fn all_after_linked<T>(
    old: Seq<Node<T>>,
    new: Seq<Node<T>>,
    current: usize,
    pbranch: Seq<usize>,
) -> bool {
    forall|k: int|
        0 <= k < old[current as int].after@.len() ==> #[trigger] after_linked(
            new,
            current as int,
            pbranch,
            k,
        )
}

/// Every topic that `current` comes before is linked.
pub open spec fn all_before_linked<T>(
    old: Seq<Node<T>>,
    new: Seq<Node<T>>,
    current: usize,
    sbranch: Seq<usize>,
) -> bool {
    forall|k: int|
        0 <= k < old[current as int].before@.len() ==> #[trigger] before_linked(
            new,
            current as int,
            sbranch,
            k,
        )
}

/// A registry built from `b` keeps the nodes of the branch sets.
pub proof fn lemma_branch_in_stays<T>(members: Seq<usize>, b: Seq<Node<T>>, c: Seq<Node<T>>)
    requires
        branch_in(members, b),
        b.len() <= c.len(),
    ensures
        branch_in(members, c),
{
}

/// The backward pass: makes every topic that `current_node` comes after
/// one of its predecessors, loading it if need be, and goes on with the
/// forward pass into each. A topic that is `current_node` itself or on
/// the path in `pbranch` is skipped. Stops at the first record that cannot
/// be read.
pub fn build_tree_root_to_leaf<T, U, R, C>(
    current_node: usize,
    nodes: &mut Graph<T>,
    pbranch: &mut BranchSet,
    sbranch: &mut BranchSet,
    read_from_file: &R,
    create_node: &C,
    depth: i64,
) -> (r: Result<(), RecordLoadError>) where
    R: Fn(&String) -> Option<U>,
    C: Fn(&String, U) -> Node<T>,

    requires
        pass_ready(old(nodes)@, current_node, old(pbranch)@, old(sbranch)@),
        forall|s: &String| call_requires(*read_from_file, (s,)),
        forall|s: &String, u: U| call_requires(*create_node, (s, u)),
    ensures
        final(nodes).wf(),
        built(old(nodes)@, final(nodes)@),
        match r {
            Ok(_) => {
                &&& final(pbranch)@ == old(pbranch)@
                &&& final(sbranch)@ == old(sbranch)@
                &&& all_after_linked(old(nodes)@, final(nodes)@, current_node, old(pbranch)@)
            },
            Err(e) => read_failed(*read_from_file, e.id@),
        },
        steady(*read_from_file, *create_node) ==> match after_pass(
            *read_from_file,
            *create_node,
            entries_of(old(nodes)@),
            old(pbranch)@,
            old(sbranch)@,
            current_node as int,
            depth,
            0,
        ) {
            Some(g) => r is Ok && entries_of(final(nodes)@) == g,
            None => r is Err,
        },
    decreases
            usize::MAX - old(nodes)@.len(),
            free(old(pbranch)@, old(nodes)@.len() as int) + free(
                old(sbranch)@,
                old(nodes)@.len() as int,
            ),
            0nat,
{
    let ghost start = nodes@;
    let ghost path = pbranch@;
    let ghost goal = after_pass(
        *read_from_file,
        *create_node,
        entries_of(start),
        path,
        sbranch@,
        current_node as int,
        depth,
        0,
    );
    let count = nodes.nodes[current_node].after.len();
    let mut k: usize = 0;
    proof {
        lemma_built_refl(start);
    }
    while k < count
        invariant
            pass_ready(start, current_node, path, sbranch@),
            start == old(nodes)@,
            path == old(pbranch)@,
            sbranch@ == old(sbranch)@,
            pbranch@ == path,
            nodes.wf(),
            built(start, nodes@),
            count == start[current_node as int].after@.len(),
            k <= count,
            forall|s: &String| call_requires(*read_from_file, (s,)),
            forall|s: &String, u: U| call_requires(*create_node, (s, u)),
            forall|j: int|
                0 <= j < k ==> #[trigger] after_linked(nodes@, current_node as int, path, j),
            goal == after_pass(
                *read_from_file,
                *create_node,
                entries_of(old(nodes)@),
                old(pbranch)@,
                old(sbranch)@,
                current_node as int,
                depth,
                0,
            ),
            steady(*read_from_file, *create_node) ==> after_pass(
                *read_from_file,
                *create_node,
                entries_of(nodes@),
                path,
                sbranch@,
                current_node as int,
                depth,
                k as int,
            ) == goal,
        decreases count - k,
    {
        let ghost before = nodes@;
        proof {
            assert(kept_at(start, before, current_node as int));
        }
        let raw = nodes.nodes[current_node].after[k].clone();
        let id = clean(&raw);
        let known = nodes.find(&id);
        let cycle = match known {
            Some(p) => p == current_node || pbranch.contains(p),
            None => false,
        };
        proof {
            lemma_found(before, id@);
            assert(entries_of(before)[current_node as int].after[k as int] == raw@);
            assert(cycle == on_path(found(entries_of(before), id@), current_node as int, path));
            lemma_after_pass_step(
                *read_from_file,
                *create_node,
                entries_of(before),
                path,
                sbranch@,
                current_node as int,
                depth,
                k as int,
            );
        }
        if !cycle {
            let loaded = load_node(nodes, &raw, read_from_file, create_node);
            let ghost taken = nodes@;
            proof {
                if steady(*read_from_file, *create_node) {
                    lemma_loaded_is_taken_in(
                        before,
                        taken,
                        raw@,
                        loaded,
                        *read_from_file,
                        *create_node,
                    );
                }
                if holds_id(before, id@) || loaded is Err {
                    lemma_built_refl(before);
                } else {
                    lemma_built_node(before, taken);
                }
                lemma_built_trans(start, before, taken);
            }
            let p = match loaded {
                Ok(p) => p,
                Err(e) => {
                    return Err(e);
                },
            };
            proof {
                assert(p != current_node && !path.contains(p)) by {
                    if path.contains(p) {
                        let m = choose|m: int| 0 <= m < path.len() && path[m] == p;
                        assert(path[m] < start.len());
                    }
                }
                assert(kept_at(start, taken, current_node as int));
                assert(names(taken[current_node as int].after@, taken[p as int].path@)) by {
                    assert(clean_path(taken[current_node as int].after@[k as int]@) == id@);
                }
            }
            let added = pbranch.insert(p);
            add_predecessor(nodes, current_node, p);
            let ghost linked = nodes@;
            proof {
                lemma_with_edge_is_linked(taken, linked, current_node as int, p as int);
                lemma_built_edge(taken, linked, current_node as int, p as int);
                lemma_built_trans(start, taken, linked);
                lemma_branch_in_stays(path, start, linked);
                lemma_branch_in_stays(sbranch@, start, linked);
                assert(branch_in(pbranch@, linked)) by {
                    assert forall|i: int| 0 <= i < pbranch@.len() implies (#[trigger] pbranch@[i])
                        < linked.len() by {
                        if i < path.len() {
                            assert(pbranch@[i] == path[i]);
                        }
                    }
                }
                if linked.len() == start.len() {
                    lemma_free_after_insert(path, p, start.len() as int);
                }
                // The topic is linked now, and stays so.
                assert(kept_at(taken, linked, current_node as int));
                lemma_id_stays(taken, linked, p as int);
                assert(linked[current_node as int].predecessors@.contains(p)) by {
                }
                assert(after_linked(linked, current_node as int, path, k as int));
            }
            let deeper = build_tree_leaf_to_root(
                p,
                nodes,
                pbranch,
                sbranch,
                read_from_file,
                create_node,
                next_depth(depth),
            );
            proof {
                lemma_built_trans(start, linked, nodes@);
                lemma_built_trans(before, taken, linked);
                lemma_built_trans(before, linked, nodes@);
                lemma_built_is_grown(linked, nodes@);
            }
            match deeper {
                Ok(_) => {},
                Err(e) => {
                    return Err(e);
                },
            }
            pbranch.remove(p);
            proof {
                lemma_after_linked_stays(linked, nodes@, current_node as int, path, k as int);
            }
        } else {
            proof {
                lemma_built_refl(before);
            }
        }
        proof {
            assert forall|j: int| 0 <= j < k implies #[trigger] after_linked(
                nodes@,
                current_node as int,
                path,
                j,
            ) by {
                assert(after_linked(before, current_node as int, path, j));
                lemma_after_linked_stays(before, nodes@, current_node as int, path, j);
            }
        }
        k = k + 1;
    }
    proof {
        assert(kept_at(start, nodes@, current_node as int));
        assert(entries_of(nodes@)[current_node as int].after.len() == count);
        lemma_after_pass_step(
            *read_from_file,
            *create_node,
            entries_of(nodes@),
            path,
            sbranch@,
            current_node as int,
            depth,
            k as int,
        );
    }
    Ok(())
}

/// The forward pass: while `depth` is not zero, makes `current_node` a
/// predecessor of every topic that it comes before, makes that topic a
/// predecessor of the root, and goes on forward into it; a topic that is
/// `current_node` itself or on the path in `sbranch` is skipped. Then the
/// backward pass is made from `current_node`, whatever `depth` is. A
/// negative `depth` sets no limit.
pub fn build_tree_leaf_to_root<T, U, R, C>(
    current_node: usize,
    nodes: &mut Graph<T>,
    pbranch: &mut BranchSet,
    sbranch: &mut BranchSet,
    read_from_file: &R,
    create_node: &C,
    depth: i64,
) -> (r: Result<(), RecordLoadError>) where
    R: Fn(&String) -> Option<U>,
    C: Fn(&String, U) -> Node<T>,

    requires
        pass_ready(old(nodes)@, current_node, old(pbranch)@, old(sbranch)@),
        forall|s: &String| call_requires(*read_from_file, (s,)),
        forall|s: &String, u: U| call_requires(*create_node, (s, u)),
    ensures
        final(nodes).wf(),
        built(old(nodes)@, final(nodes)@),
        match r {
            Ok(_) => {
                &&& final(pbranch)@ == old(pbranch)@
                &&& final(sbranch)@ == old(sbranch)@
                &&& all_after_linked(old(nodes)@, final(nodes)@, current_node, old(pbranch)@)
                &&& depth != 0 ==> all_before_linked(
                    old(nodes)@,
                    final(nodes)@,
                    current_node,
                    old(sbranch)@,
                )
            },
            Err(e) => read_failed(*read_from_file, e.id@),
        },
        steady(*read_from_file, *create_node) ==> match before_pass(
            *read_from_file,
            *create_node,
            entries_of(old(nodes)@),
            old(pbranch)@,
            old(sbranch)@,
            current_node as int,
            depth,
            0,
        ) {
            Some(g) => r is Ok && entries_of(final(nodes)@) == g,
            None => r is Err,
        },
    decreases
            usize::MAX - old(nodes)@.len(),
            free(old(pbranch)@, old(nodes)@.len() as int) + free(
                old(sbranch)@,
                old(nodes)@.len() as int,
            ),
            1nat,
{
    let ghost start = nodes@;
    let ghost path = sbranch@;
    let root = nodes.root();
    let ghost goal = before_pass(
        *read_from_file,
        *create_node,
        entries_of(start),
        pbranch@,
        path,
        current_node as int,
        depth,
        0,
    );
    proof {
        lemma_built_refl(start);
    }
    if depth != 0 {
        let count = nodes.nodes[current_node].before.len();
        let mut k: usize = 0;
        while k < count
            invariant
                pass_ready(start, current_node, pbranch@, path),
                start == old(nodes)@,
                path == old(sbranch)@,
                pbranch@ == old(pbranch)@,
                sbranch@ == path,
                root == 0,
                nodes.wf(),
                built(start, nodes@),
                count == start[current_node as int].before@.len(),
                k <= count,
                forall|s: &String| call_requires(*read_from_file, (s,)),
                forall|s: &String, u: U| call_requires(*create_node, (s, u)),
                forall|j: int|
                    0 <= j < k ==> #[trigger] before_linked(nodes@, current_node as int, path, j),
                depth != 0,
                goal == before_pass(
                    *read_from_file,
                    *create_node,
                    entries_of(old(nodes)@),
                    old(pbranch)@,
                    old(sbranch)@,
                    current_node as int,
                    depth,
                    0,
                ),
                steady(*read_from_file, *create_node) ==> before_pass(
                    *read_from_file,
                    *create_node,
                    entries_of(nodes@),
                    pbranch@,
                    path,
                    current_node as int,
                    depth,
                    k as int,
                ) == goal,
            decreases count - k,
        {
            let ghost before = nodes@;
            proof {
                assert(kept_at(start, before, current_node as int));
            }
            let raw = nodes.nodes[current_node].before[k].clone();
            let id = clean(&raw);
            let known = nodes.find(&id);
            let cycle = match known {
                Some(s) => s == current_node || sbranch.contains(s),
                None => false,
            };
            proof {
                lemma_found(before, id@);
                assert(entries_of(before)[current_node as int].before[k as int] == raw@);
                assert(cycle == on_path(
                    found(entries_of(before), id@),
                    current_node as int,
                    path,
                ));
                lemma_before_pass_step(
                    *read_from_file,
                    *create_node,
                    entries_of(before),
                    pbranch@,
                    path,
                    current_node as int,
                    depth,
                    k as int,
                );
            }
            if !cycle {
                let loaded = load_node(nodes, &raw, read_from_file, create_node);
                let ghost taken = nodes@;
                proof {
                    if steady(*read_from_file, *create_node) {
                        lemma_loaded_is_taken_in(
                            before,
                            taken,
                            raw@,
                            loaded,
                            *read_from_file,
                            *create_node,
                        );
                    }
                    if holds_id(before, id@) || loaded is Err {
                        lemma_built_refl(before);
                    } else {
                        lemma_built_node(before, taken);
                    }
                    lemma_built_trans(start, before, taken);
                }
                let s = match loaded {
                    Ok(s) => s,
                    Err(e) => {
                        return Err(e);
                    },
                };
                proof {
                    assert(s != current_node && !path.contains(s)) by {
                        if path.contains(s) {
                            let m = choose|m: int| 0 <= m < path.len() && path[m] == s;
                            assert(path[m] < start.len());
                        }
                    }
                    assert(kept_at(start, taken, current_node as int));
                    assert(names(taken[current_node as int].before@, taken[s as int].path@)) by {
                        assert(clean_path(taken[current_node as int].before@[k as int]@) == id@);
                    }
                }
                let added = sbranch.insert(s);
                add_successor(nodes, root, current_node, s);
                let ghost linked = nodes@;
                proof {
                    let mid = choose|mid: Seq<Node<T>>|
                        well_formed(mid) && with_edge(taken, mid, root as int, s as int)
                            && with_edge(mid, linked, s as int, current_node as int);
                    lemma_with_edge_is_linked(taken, mid, root as int, s as int);
                    lemma_with_edge_is_linked(mid, linked, s as int, current_node as int);
                    lemma_built_edge(taken, mid, root as int, s as int);
                    assert(mid.len() == taken.len());
                    assert(kept_at(taken, mid, current_node as int));
                    assert(kept_at(taken, mid, s as int));
                    assert(names(mid[current_node as int].before@, mid[s as int].path@));
                    lemma_built_edge(mid, linked, s as int, current_node as int);
                    lemma_built_trans(taken, mid, linked);
                    lemma_built_trans(start, taken, linked);
                    lemma_branch_in_stays(path, start, linked);
                    lemma_branch_in_stays(pbranch@, start, linked);
                    assert(branch_in(sbranch@, linked)) by {
                        assert forall|i: int| 0 <= i < sbranch@.len() implies (
                        #[trigger] sbranch@[i]) < linked.len() by {
                            if i < path.len() {
                                assert(sbranch@[i] == path[i]);
                            }
                        }
                    }
                    if linked.len() == start.len() {
                        lemma_free_after_insert(path, s, start.len() as int);
                    }
                    // The topic is linked now, and stays so.
                    lemma_id_stays(taken, linked, s as int);
                    assert(kept_at(mid, linked, root as int));
                    assert(kept_at(mid, linked, s as int));
                    assert(linked[s as int].predecessors@.contains(current_node)) by {
                    }
                    if s != 0 {
                        assert(mid[0].predecessors@.contains(s)) by {
                        }
                        lemma_prefix_contains(mid[0].predecessors@, linked[0].predecessors@, s);
                    }
                    assert(before_linked(linked, current_node as int, path, k as int));
                }
                let deeper = build_tree_leaf_to_root(
                    s,
                    nodes,
                    pbranch,
                    sbranch,
                    read_from_file,
                    create_node,
                    next_depth(depth),
                );
                proof {
                    lemma_built_trans(start, linked, nodes@);
                    lemma_built_trans(before, taken, linked);
                    lemma_built_trans(before, linked, nodes@);
                    lemma_built_is_grown(linked, nodes@);
                }
                match deeper {
                    Ok(_) => {},
                    Err(e) => {
                        return Err(e);
                    },
                }
                sbranch.remove(s);
                proof {
                    lemma_before_linked_stays(linked, nodes@, current_node as int, path, k as int);
                }
            } else {
                proof {
                    lemma_built_refl(before);
                }
            }
            proof {
                assert forall|j: int| 0 <= j < k implies #[trigger] before_linked(
                    nodes@,
                    current_node as int,
                    path,
                    j,
                ) by {
                    assert(before_linked(before, current_node as int, path, j));
                    lemma_before_linked_stays(before, nodes@, current_node as int, path, j);
                }
            }
            k = k + 1;
        }
    }
    let ghost forward = nodes@;
    proof {
        if depth != 0 {
            lemma_before_pass_step(
                *read_from_file,
                *create_node,
                entries_of(forward),
                pbranch@,
                path,
                current_node as int,
                depth,
                start[current_node as int].before@.len() as int,
            );
        } else {
            lemma_before_pass_step(
                *read_from_file,
                *create_node,
                entries_of(forward),
                pbranch@,
                path,
                current_node as int,
                depth,
                0,
            );
        }
        lemma_branch_in_stays(pbranch@, start, forward);
        lemma_branch_in_stays(path, start, forward);
        assert(kept_at(start, forward, current_node as int));
    }
    let r = build_tree_root_to_leaf(
        current_node,
        nodes,
        pbranch,
        sbranch,
        read_from_file,
        create_node,
        depth,
    );
    proof {
        lemma_built_trans(start, forward, nodes@);
        if r is Ok {
            assert forall|j: int|
                0 <= j < start[current_node as int].after@.len() implies #[trigger] after_linked(
                nodes@,
                current_node as int,
                old(pbranch)@,
                j,
            ) by {
                assert(after_linked(nodes@, current_node as int, old(pbranch)@, j));
            }
            if depth != 0 {
                assert forall|j: int|
                    0 <= j < start[current_node as int].before@.len() implies #[trigger] before_linked(
                    nodes@,
                    current_node as int,
                    path,
                    j,
                ) by {
                    assert(before_linked(forward, current_node as int, path, j));
                    lemma_before_linked_stays(forward, nodes@, current_node as int, path, j);
                }
            }
        }
    }
    r
}

} // verus!
