//! The deadline merger: topics with a deadline are listed by deadline,
//! each with what it depends on; everything else follows the order that
//! cost gives.

use crate::branches::order_branches;
use crate::builder::read_failed;
use crate::graph::{edges_of, fan_in, well_formed, Graph};
use crate::loader::RecordLoadError;
use crate::node::Node;
use crate::options::Options;
use crate::order::{is_ordering_of, BranchOrder};
use crate::pipeline::{build_graph_wrapper, staged};
use crate::branches::reordered_at;
use crate::plan::{alike, blank_entries, entries_of, lemma_alike_blanked, lemma_blank_entries, lemma_merge_plan_fails, merge_plan, merge_succeeds, planned, steady, Entry};
use crate::reducer::thinned_at;
use crate::text::paths_of;
use crate::node::contains_index;
use crate::sequencer::{
    counters_of, emitted_of, same_but_traversal, start_of, topological_sort, traversal_ok,
    visits_of, walk,
};
use crate::walk::{lemma_walk_lists_nodes, lemma_walk_skips_listed};
use vstd::prelude::*;

verus! {

/// The nodes among the first `n` that have a deadline, by index.
pub open spec fn with_deadline<T>(nodes: Seq<Node<T>>, n: int) -> Seq<usize>
    decreases n,
{
    if n <= 0 {
        Seq::<usize>::empty()
    } else if nodes[n - 1].deadline is Some {
        with_deadline(nodes, n - 1).push((n - 1) as usize)
    } else {
        with_deadline(nodes, n - 1)
    }
}

/// The nodes with a deadline are listed by rising index, each once.
pub proof fn lemma_with_deadline<T>(nodes: Seq<Node<T>>, n: int)
    requires
        0 <= n <= nodes.len() <= usize::MAX,
    ensures
        with_deadline(nodes, n).no_duplicates(),
        forall|i: int|
            0 <= i < with_deadline(nodes, n).len() ==> (#[trigger] with_deadline(nodes, n)[i]) < n
                && nodes[with_deadline(nodes, n)[i] as int].deadline is Some,
        forall|v: usize|
            v < n && nodes[v as int].deadline is Some ==> with_deadline(nodes, n).contains(v),
    decreases n,
{
    if n > 0 {
        lemma_with_deadline(nodes, n - 1);
        let head = with_deadline(nodes, n - 1);
        let all = with_deadline(nodes, n);
        assert forall|v: usize| v < n && nodes[v as int].deadline is Some implies all.contains(
            v,
        ) by {
            if v < n - 1 {
                assert(head.contains(v));
                let i = choose|i: int| 0 <= i < head.len() && head[i] == v;
                assert(all[i] == v);
            } else {
                assert(all[all.len() - 1] == v);
            }
        }
    }
}

/// The nodes that have a deadline, the earlier deadline first; nodes with
/// the same deadline by index.
pub fn nodes_with_deadlines<T>(nodes: &Graph<T>, reverse: bool) -> (out: Vec<usize>)
    requires
        nodes.wf(),
    ensures
        is_ordering_of(
            nodes@,
            BranchOrder::Deadline,
            reverse,
            with_deadline(nodes@, nodes@.len() as int),
            out@,
        ),
        forall|i: int|
            0 <= i < out@.len() ==> (#[trigger] out@[i]) < nodes@.len()
                && nodes@[out@[i] as int].deadline is Some,
{
    let n = nodes.len();
    let mut found: Vec<usize> = Vec::new();
    let mut v: usize = 0;
    while v < n
        invariant
            n == nodes@.len(),
            v <= n,
            found@ == with_deadline(nodes@, v as int),
        decreases n - v,
    {
        if nodes.nodes[v].deadline.is_some() {
            found.push(v);
        }
        v = v + 1;
    }
    proof {
        lemma_with_deadline(nodes@, n as int);
    }
    let out = order_branches(nodes, &found, reverse, BranchOrder::Deadline);
    proof {
        assert forall|i: int| 0 <= i < out@.len() implies (#[trigger] out@[i]) < nodes@.len()
            && nodes@[out@[i] as int].deadline is Some by {
            assert(out@.contains(out@[i]));
            assert(found@.contains(out@[i]));
            let m = choose|m: int| 0 <= m < found@.len() && found@[m] == out@[i];
            assert(found@[m] < n);
        }
    }
    out
}

/// `blank` is `old` with edges and traversal state forgotten, with the
/// root marked as listed, and with `targets` as what the root comes after.
pub open spec fn blanked<T>(
    old: Seq<Node<T>>,
    blank: Seq<Node<T>>,
    root: usize,
    targets: Seq<Seq<char>>,
) -> bool {
    &&& blank.len() == old.len()
    &&& forall|i: int|
        0 <= i < old.len() ==> {
            &&& (#[trigger] blank[i]).is_detached()
            &&& blank[i].times_visited == 0
            &&& blank[i].dag_cost == 0
            &&& blank[i].sorted == (i == root)
            &&& blank[i].path@ == old[i].path@
            &&& blank[i].before@ == old[i].before@
            &&& blank[i].cost == old[i].cost
            &&& blank[i].deadline == old[i].deadline
            &&& blank[i].data == old[i].data
            &&& paths_of(blank[i].after@) == if i == root {
                targets
            } else {
                paths_of(old[i].after@)
            }
        }
}

/// What the build of one pass makes of the entries, where reading and
/// making are functions of the identity; nothing where they are not or
/// where a record cannot be read.
pub open spec fn pass_plan<T, U, R: Fn(&String) -> Option<U>, C: Fn(&String, U) -> Node<T>>(
    read: R,
    create: C,
    prev: Seq<Node<T>>,
    root: usize,
    targets: Seq<Seq<char>>,
    sdepth: i64,
) -> Option<Seq<Entry>> {
    if steady(read, create) {
        planned(read, create, blank_entries(prev, root, targets), root, sdepth)
    } else {
        None
    }
}

/// What one pass does: starting from `prev`, the registry is blanked with
/// `targets` at the root, the graph below the root is made ready, and a
/// walk from the root lists `out` and leaves `next`. Where `plan` holds
/// entries, they are the entries of the graph as it was built.
pub open spec fn passed<T>(
    prev: Seq<Node<T>>,
    next: Seq<Node<T>>,
    targets: Seq<Seq<char>>,
    out: Seq<usize>,
    root: usize,
    reverse: bool,
    sdepth: i64,
    plan: Option<Seq<Entry>>,
) -> bool {
    exists|
        blank: Seq<Node<T>>,
        mid: Seq<Node<T>>,
        thin: Seq<Node<T>>,
        weighed: Seq<Node<T>>,
        ready: Seq<Node<T>>,
    |
        {
            &&& blanked(prev, blank, root, targets)
            &&& staged(blank, mid, thin, weighed, ready, root, reverse, sdepth)
            &&& plan is Some ==> entries_of(mid) == plan->0
            &&& well_formed(ready)
            &&& out == walk(ready, root).output
            &&& same_but_traversal(ready, next)
            &&& visits_of(next) == walk(ready, root).visits
            &&& emitted_of(next) == walk(ready, root).emitted
        }
}

/// A pass leaves the nodes that were built, with what they declare.
pub proof fn lemma_passed_alike<T>(
    prev: Seq<Node<T>>,
    next: Seq<Node<T>>,
    targets: Seq<Seq<char>>,
    out: Seq<usize>,
    root: usize,
    reverse: bool,
    sdepth: i64,
    plan: Option<Seq<Entry>>,
)
    requires
        passed(prev, next, targets, out, root, reverse, sdepth, plan),
        plan is Some,
    ensures
        alike(plan->0, entries_of(next), root),
{
    let (blank, mid, thin, weighed, ready) = choose|
        blank: Seq<Node<T>>,
        mid: Seq<Node<T>>,
        thin: Seq<Node<T>>,
        weighed: Seq<Node<T>>,
        ready: Seq<Node<T>>,
    |
        {
            &&& blanked(prev, blank, root, targets)
            &&& staged(blank, mid, thin, weighed, ready, root, reverse, sdepth)
            &&& plan is Some ==> entries_of(mid) == plan->0
            &&& well_formed(ready)
            &&& out == walk(ready, root).output
            &&& same_but_traversal(ready, next)
            &&& visits_of(next) == walk(ready, root).visits
            &&& emitted_of(next) == walk(ready, root).emitted
        };
    let a = entries_of(mid);
    let b = entries_of(next);
    assert forall|j: int| 0 <= j < a.len() implies (#[trigger] a[j]).id == b[j].id && a[j].before
        == b[j].before && (j != root ==> a[j].after == b[j].after) by {
        assert(thinned_at(mid, thin, j));
        assert(reordered_at(weighed, ready, j));
        assert(thin[j].same_record(&mid[j]));
        assert(weighed[j].same_record(&thin[j]));
        assert(ready[j].same_record(&weighed[j]));
        assert(next[j].same_record(&ready[j]));
    }
}

/// The identities of the nodes `list`.
pub open spec fn ids_of<T>(nodes: Seq<Node<T>>, list: Seq<usize>) -> Seq<Seq<char>> {
    Seq::new(list.len(), |i: int| nodes[list[i] as int].path@)
}

/// One pass: forgets every edge and all traversal state, lets the root
/// come after `targets` and nothing else, makes the graph below the root
/// ready and walks it. The root itself is not listed.
pub fn sequence_from<T, U, R, C>(
    nodes: &mut Graph<T>,
    root: usize,
    targets: Vec<String>,
    read_from_file: &R,
    create_node: &C,
    options: &Options,
    sdepth: i64,
) -> (r: Result<Vec<usize>, RecordLoadError>) where
    R: Fn(&String) -> Option<U>,
    C: Fn(&String, U) -> Node<T>,

    requires
        old(nodes).wf(),
        root < old(nodes)@.len(),
        forall|s: &String| call_requires(*read_from_file, (s,)),
        forall|s: &String, u: U| call_requires(*create_node, (s, u)),
    ensures
        final(nodes).wf(),
        old(nodes)@.len() <= final(nodes)@.len(),
        forall|i: int|
            0 <= i < old(nodes)@.len() ==> (#[trigger] final(nodes)@[i]).path@ == old(nodes)@[i].path@ && final(nodes)@[i].deadline == old(nodes)@[i].deadline,
        match r {
            Ok(out) => {
                &&& passed(
                    old(nodes)@,
                    final(nodes)@,
                    paths_of(targets@),
                    out@,
                    root,
                    options.reverse,
                    sdepth,
                    pass_plan(
                        *read_from_file,
                        *create_node,
                        old(nodes)@,
                        root,
                        paths_of(targets@),
                        sdepth,
                    ),
                )
                &&& !out@.contains(root)
                &&& forall|i: int| 0 <= i < out@.len() ==> (#[trigger] out@[i]) < final(nodes)@.len()
            },
            Err(e) => read_failed(*read_from_file, e.id@),
        },
        steady(*read_from_file, *create_node) ==> (r is Ok <==> pass_plan(
            *read_from_file,
            *create_node,
            old(nodes)@,
            root,
            paths_of(targets@),
            sdepth,
        ) is Some),
{
    nodes.reset();
    let ghost cleared = nodes@;
    nodes.nodes[root].after = targets;
    nodes.nodes[root].sorted = true;
    let ghost blank = nodes@;
    proof {
        assert(edges_of(blank) =~= edges_of(cleared));
        assert forall|i: int, j: int| 0 <= i < j < blank.len() implies (#[trigger] blank[i]).path@
            != (#[trigger] blank[j]).path@ by {
            assert(cleared[i].path@ != cleared[j].path@);
        }
        assert forall|v: usize| v < blank.len() implies (#[trigger] blank[v as int]).num_successors
            == fan_in(edges_of(blank), v) by {
            assert(cleared[v as int].num_successors == fan_in(edges_of(cleared), v));
        }
        assert(blanked(old(nodes)@, blank, root, paths_of(targets@)));
        assert(entries_of(blank) =~~= blank_entries(old(nodes)@, root, paths_of(targets@)));
    }
    let made = build_graph_wrapper(root, nodes, read_from_file, create_node, options, sdepth);
    match made {
        Err(e) => Err(e),
        Ok(_) => {
            let ghost ready = nodes@;
            let out = topological_sort(nodes, root);
            proof {
                let edges = edges_of(ready);
                let fan = counters_of(ready);
                let begin = start_of(ready, root);
                assert(begin.output =~= Seq::<usize>::empty());
                assert forall|u: int, k: int|
                    0 <= u < edges.len() && 0 <= k < edges[u].len() implies (#[trigger] edges[u][k])
                    < edges.len() by {
                    assert(edges[u].no_duplicates());
                }
                assert(traversal_ok(edges, fan, begin));
                lemma_walk_skips_listed(edges, fan, begin, root);
                lemma_walk_lists_nodes(edges, fan, begin);
                let plan = pass_plan(
                    *read_from_file,
                    *create_node,
                    old(nodes)@,
                    root,
                    paths_of(targets@),
                    sdepth,
                );
                let (mid, thin, weighed) = choose|
                    mid: Seq<Node<T>>,
                    thin: Seq<Node<T>>,
                    weighed: Seq<Node<T>>,
                |
                    staged(blank, mid, thin, weighed, ready, root, options.reverse, sdepth) && (
                    steady(*read_from_file, *create_node) ==> planned(
                        *read_from_file,
                        *create_node,
                        entries_of(blank),
                        root,
                        sdepth,
                    ) == Some(entries_of(mid)));
                assert(blanked(old(nodes)@, blank, root, paths_of(targets@)) && staged(
                    blank,
                    mid,
                    thin,
                    weighed,
                    ready,
                    root,
                    options.reverse,
                    sdepth,
                ) && (plan is Some ==> entries_of(mid) == plan->0) && well_formed(ready) && out@ == walk(ready, root).output && same_but_traversal(
                    ready,
                    nodes@,
                ) && visits_of(nodes@) == walk(ready, root).visits && emitted_of(nodes@) == walk(
                    ready,
                    root,
                ).emitted);
            }
            Ok(out)
        },
    }
}

/// What the passes so far have gathered: the output of each pass stands
/// before the outputs of the passes before it.
pub open spec fn gathered(outs: Seq<Seq<usize>>, k: int) -> Seq<usize>
    decreases k,
{
    if k <= 0 {
        Seq::<usize>::empty()
    } else {
        outs[k - 1] + gathered(outs, k - 1)
    }
}

/// What a merge does, pass by pass: `states` are the registries between
/// the passes and `outs` what each pass lists. Pass `i` walks the graph
/// below the `i`-th deadline alone, without going forward; the last pass
/// walks the graph below what the root came after when the merge began.
pub open spec fn merged_by<T, U, R: Fn(&String) -> Option<U>, C: Fn(&String, U) -> Node<T>>(
    read: R,
    create: C,
    old: Seq<Node<T>>,
    new: Seq<Node<T>>,
    deadline_nodes: Seq<usize>,
    states: Seq<Seq<Node<T>>>,
    outs: Seq<Seq<usize>>,
    root: usize,
    reverse: bool,
    sdepth: i64,
) -> bool {
    let k = deadline_nodes.len() as int;
    &&& states.len() == k + 2
    &&& outs.len() == k + 1
    &&& states[0] == old
    &&& states[k + 1] == new
    &&& forall|i: int|
        0 <= i < k ==> #[trigger] passed(
            states[i],
            states[i + 1],
            seq![old[deadline_nodes[i] as int].path@],
            outs[i],
            root,
            reverse,
            0,
            pass_plan(read, create, states[i], root, seq![old[deadline_nodes[i] as int].path@], 0),
        )
    &&& passed(
        states[k],
        states[k + 1],
        paths_of(old[root as int].after@),
        outs[k],
        root,
        reverse,
        sdepth,
        pass_plan(read, create, states[k], root, paths_of(old[root as int].after@), sdepth),
    )
}

/// A copy of `list`.
fn copy_paths(list: &Vec<String>) -> (copy: Vec<String>)
    ensures
        copy@ == list@,
{
    let mut copy: Vec<String> = Vec::new();
    let mut i: usize = 0;
    while i < list.len()
        invariant
            i <= list@.len(),
            copy@ == list@.take(i as int),
        decreases list@.len() - i,
    {
        copy.push(list[i].clone());
        proof {
            assert(list@.take(i + 1) =~= list@.take(i as int).push(list@[i as int]));
        }
        i = i + 1;
    }
    proof {
        assert(list@.take(i as int) =~= list@);
    }
    copy
}

/// Lists the topics of a document when some have deadlines. For each node
/// of `deadline_nodes` in turn, the graph below that node alone is built
/// and walked, and what the walk lists is put before what the earlier
/// walks have listed. Then the graph below what the root came after at the
/// outset is built and walked, and what that walk lists is put first.
/// Read backwards, the result gives the topics below the first deadline,
/// then those below the second, and so on, and at last the others. A
/// topic may be listed by more than one walk.
pub fn merge<T, U, R, C>(
    nodes: &mut Graph<T>,
    root: usize,
    deadline_nodes: &Vec<usize>,
    read_from_file: &R,
    create_node: &C,
    options: &Options,
    sdepth: i64,
) -> (r: Result<Vec<usize>, RecordLoadError>) where
    R: Fn(&String) -> Option<U>,
    C: Fn(&String, U) -> Node<T>,

    requires
        old(nodes).wf(),
        root < old(nodes)@.len(),
        forall|i: int|
            0 <= i < deadline_nodes@.len() ==> (#[trigger] deadline_nodes@[i]) < old(nodes)@.len(),
        forall|s: &String| call_requires(*read_from_file, (s,)),
        forall|s: &String, u: U| call_requires(*create_node, (s, u)),
    ensures
        final(nodes).wf(),
        old(nodes)@.len() <= final(nodes)@.len(),
        match r {
            Ok(sorted) => {
                &&& exists|states: Seq<Seq<Node<T>>>, outs: Seq<Seq<usize>>|
                    merged_by(
                        *read_from_file,
                        *create_node,
                        old(nodes)@,
                        final(nodes)@,
                        deadline_nodes@,
                        states,
                        outs,
                        root,
                        options.reverse,
                        sdepth,
                    ) && sorted@ == outs[deadline_nodes@.len() as int] + gathered(
                        outs,
                        deadline_nodes@.len() as int,
                    )
                &&& !sorted@.contains(root)
                &&& forall|i: int|
                    0 <= i < sorted@.len() ==> (#[trigger] sorted@[i]) < final(nodes)@.len()
            },
            Err(e) => read_failed(*read_from_file, e.id@),
        },
        steady(*read_from_file, *create_node) ==> (r is Ok <==> merge_succeeds(
            *read_from_file,
            *create_node,
            entries_of(old(nodes)@),
            root,
            ids_of(old(nodes)@, deadline_nodes@),
            paths_of(old(nodes)@[root as int].after@),
            sdepth,
        )),
{
    let ghost g0 = entries_of(nodes@);
    let ghost ids = ids_of(nodes@, deadline_nodes@);
    let outset = copy_paths(&nodes.nodes[root].after);
    let count = deadline_nodes.len();
    let mut acc: Vec<usize> = Vec::new();
    let ghost mut states: Seq<Seq<Node<T>>> = seq![nodes@];
    let ghost mut outs: Seq<Seq<usize>> = Seq::empty();
    let mut i: usize = 0;
    while i < count
        invariant
            nodes.wf(),
            root < old(nodes)@.len(),
            old(nodes)@.len() <= nodes@.len(),
            count == deadline_nodes@.len(),
            i <= count,
            outset@ == old(nodes)@[root as int].after@,
            forall|j: int|
                0 <= j < deadline_nodes@.len() ==> (#[trigger] deadline_nodes@[j]) < old(nodes)@.len(),
            forall|j: int|
                0 <= j < old(nodes)@.len() ==> (#[trigger] nodes@[j]).path@ == old(nodes)@[j].path@,
            forall|s: &String| call_requires(*read_from_file, (s,)),
            forall|s: &String, u: U| call_requires(*create_node, (s, u)),
            states.len() == i + 1,
            outs.len() == i,
            states[0] == old(nodes)@,
            states[i as int] == nodes@,
            forall|j: int|
                0 <= j < i ==> #[trigger] passed(
                    states[j],
                    states[j + 1],
                    seq![old(nodes)@[deadline_nodes@[j] as int].path@],
                    outs[j],
                    root,
                    options.reverse,
                    0,
                    pass_plan(
                        *read_from_file,
                        *create_node,
                        states[j],
                        root,
                        seq![old(nodes)@[deadline_nodes@[j] as int].path@],
                        0,
                    ),
                ),
            acc@ == gathered(outs, i as int),
            !acc@.contains(root),
            forall|j: int| 0 <= j < acc@.len() ==> (#[trigger] acc@[j]) < nodes@.len(),
            g0 == entries_of(old(nodes)@),
            ids == ids_of(old(nodes)@, deadline_nodes@),
            steady(*read_from_file, *create_node) ==> merge_plan(
                *read_from_file,
                *create_node,
                g0,
                root,
                ids,
                i as int,
            ) is Some && alike(
                merge_plan(*read_from_file, *create_node, g0, root, ids, i as int)->0,
                entries_of(nodes@),
                root,
            ),
        decreases count - i,
    {
        let n = deadline_nodes[i];
        let mut targets: Vec<String> = Vec::new();
        targets.push(nodes.nodes[n].path.clone());
        let ghost before = nodes@;
        proof {
            assert(before[n as int].path@ == old(nodes)@[n as int].path@);
            assert(paths_of(targets@) =~= seq![old(nodes)@[n as int].path@]);
        }
        let ghost plan = pass_plan(
            *read_from_file,
            *create_node,
            before,
            root,
            paths_of(targets@),
            0,
        );
        proof {
            if steady(*read_from_file, *create_node) {
                let so_far = merge_plan(*read_from_file, *create_node, g0, root, ids, i as int)->0;
                lemma_blank_entries(before, root, paths_of(targets@));
                lemma_alike_blanked(so_far, entries_of(before), root, paths_of(targets@));
                assert(ids[i as int] == old(nodes)@[n as int].path@);
                assert(plan == merge_plan(
                    *read_from_file,
                    *create_node,
                    g0,
                    root,
                    ids,
                    i + 1,
                ));
            }
        }
        let pass = sequence_from(nodes, root, targets, read_from_file, create_node, options, 0);
        match pass {
            Err(e) => {
                proof {
                    if steady(*read_from_file, *create_node) {
                        lemma_merge_plan_fails(
                            *read_from_file,
                            *create_node,
                            g0,
                            root,
                            ids,
                            i + 1,
                            count as int,
                        );
                    }
                }
                return Err(e);
            },
            Ok(out) => {
                let ghost listed = out@;
                let ghost earlier = acc@;
                let mut out = out;
                out.append(&mut acc);
                acc = out;
                proof {
                    if steady(*read_from_file, *create_node) {
                        lemma_passed_alike(
                            before,
                            nodes@,
                            paths_of(targets@),
                            listed,
                            root,
                            options.reverse,
                            0,
                            plan,
                        );
                    }
                    let old_states = states;
                    let old_outs = outs;
                    states = states.push(nodes@);
                    outs = outs.push(listed);
                    assert forall|j: int| 0 <= j < i + 1 implies #[trigger] passed(
                        states[j],
                        states[j + 1],
                        seq![old(nodes)@[deadline_nodes@[j] as int].path@],
                        outs[j],
                        root,
                        options.reverse,
                        0,
                        pass_plan(
                            *read_from_file,
                            *create_node,
                            states[j],
                            root,
                            seq![old(nodes)@[deadline_nodes@[j] as int].path@],
                            0,
                        ),
                    ) by {
                        if j < i {
                            assert(passed(
                                old_states[j],
                                old_states[j + 1],
                                seq![old(nodes)@[deadline_nodes@[j] as int].path@],
                                old_outs[j],
                                root,
                                options.reverse,
                                0,
                                pass_plan(
                                    *read_from_file,
                                    *create_node,
                                    old_states[j],
                                    root,
                                    seq![old(nodes)@[deadline_nodes@[j] as int].path@],
                                    0,
                                ),
                            ));
                        }
                    }
                    lemma_gathered_same(old_outs, outs, i as int);
                    assert(acc@ =~= listed + earlier);
                    assert forall|j: int| 0 <= j < acc@.len() implies (#[trigger] acc@[j])
                        < nodes@.len() && acc@[j] != root by {
                        if j < listed.len() {
                            assert(acc@[j] == listed[j]);
                            assert(listed.contains(listed[j]));
                        } else {
                            assert(acc@[j] == earlier[j - listed.len()]);
                            assert(earlier.contains(earlier[j - listed.len()]));
                        }
                    }
                }
            },
        }
        i = i + 1;
    }
    let ghost before = nodes@;
    proof {
        if steady(*read_from_file, *create_node) {
            let so_far = merge_plan(*read_from_file, *create_node, g0, root, ids, count as int)->0;
            lemma_blank_entries(before, root, paths_of(outset@));
            lemma_alike_blanked(so_far, entries_of(before), root, paths_of(outset@));
        }
    }
    let last = sequence_from(nodes, root, outset, read_from_file, create_node, options, sdepth);
    match last {
        Err(e) => Err(e),
        Ok(out) => {
            let ghost listed = out@;
            let ghost earlier = acc@;
            let mut sorted = out;
            sorted.append(&mut acc);
            proof {
                let old_states = states;
                let old_outs = outs;
                states = states.push(nodes@);
                outs = outs.push(listed);
                assert forall|j: int| 0 <= j < count implies #[trigger] passed(
                    states[j],
                    states[j + 1],
                    seq![old(nodes)@[deadline_nodes@[j] as int].path@],
                    outs[j],
                    root,
                    options.reverse,
                    0,
                    pass_plan(
                        *read_from_file,
                        *create_node,
                        states[j],
                        root,
                        seq![old(nodes)@[deadline_nodes@[j] as int].path@],
                        0,
                    ),
                ) by {
                    assert(passed(
                        old_states[j],
                        old_states[j + 1],
                        seq![old(nodes)@[deadline_nodes@[j] as int].path@],
                        old_outs[j],
                        root,
                        options.reverse,
                        0,
                        pass_plan(
                            *read_from_file,
                            *create_node,
                            old_states[j],
                            root,
                            seq![old(nodes)@[deadline_nodes@[j] as int].path@],
                            0,
                        ),
                    ));
                }
                lemma_gathered_same(old_outs, outs, count as int);
                assert(sorted@ =~= listed + earlier);
                assert(merged_by(
                    *read_from_file,
                    *create_node,
                    old(nodes)@,
                    nodes@,
                    deadline_nodes@,
                    states,
                    outs,
                    root,
                    options.reverse,
                    sdepth,
                ));
                assert forall|j: int| 0 <= j < sorted@.len() implies (#[trigger] sorted@[j])
                    < nodes@.len() && sorted@[j] != root by {
                    if j < listed.len() {
                        assert(sorted@[j] == listed[j]);
                        assert(listed.contains(listed[j]));
                    } else {
                        assert(sorted@[j] == earlier[j - listed.len()]);
                        assert(earlier.contains(earlier[j - listed.len()]));
                    }
                }
            }
            Ok(sorted)
        },
    }
}

/// What has been gathered depends only on the outputs gathered.
pub proof fn lemma_gathered_same(a: Seq<Seq<usize>>, b: Seq<Seq<usize>>, k: int)
    requires
        0 <= k <= a.len(),
        k <= b.len(),
        forall|j: int| 0 <= j < k ==> a[j] == b[j],
    ensures
        gathered(a, k) == gathered(b, k),
    decreases k,
{
    if k > 0 {
        lemma_gathered_same(a, b, k - 1);
    }
}

/// `s` without the later repeats of any node, order kept.
pub open spec fn without_repeats(s: Seq<usize>) -> Seq<usize>
    decreases s.len(),
{
    if s.len() == 0 {
        s
    } else {
        let head = without_repeats(s.drop_last());
        if head.contains(s.last()) {
            head
        } else {
            head.push(s.last())
        }
    }
}

/// Dropping repeats keeps exactly the elements and leaves none twice.
pub proof fn lemma_without_repeats(s: Seq<usize>)
    ensures
        without_repeats(s).no_duplicates(),
        forall|x: usize| without_repeats(s).contains(x) <==> s.contains(x),
        s.no_duplicates() ==> without_repeats(s) == s,
    decreases s.len(),
{
    if s.len() > 0 {
        let init = s.drop_last();
        let head = without_repeats(init);
        lemma_without_repeats(init);
        assert(s == init.push(s.last()));
        assert forall|x: usize| s.contains(x) implies without_repeats(s).contains(x) by {
            let i = choose|i: int| 0 <= i < s.len() && s[i] == x;
            if i < init.len() {
                assert(init[i] == x);
                assert(init.contains(x));
                let j = choose|j: int| 0 <= j < head.len() && head[j] == x;
                assert(without_repeats(s)[j] == x);
            } else if head.contains(x) {
                let j = choose|j: int| 0 <= j < head.len() && head[j] == x;
                assert(without_repeats(s)[j] == x);
            } else {
                assert(head.push(x)[head.len() as int] == x);
            }
        }
        assert forall|x: usize| without_repeats(s).contains(x) implies s.contains(x) by {
            let i = choose|i: int| 0 <= i < without_repeats(s).len() && without_repeats(s)[i] == x;
            if i < head.len() {
                assert(head[i] == x);
                assert(head.contains(x));
                assert(init.contains(x));
                let j = choose|j: int| 0 <= j < init.len() && init[j] == x;
                assert(s[j] == x);
            } else {
                assert(s[s.len() - 1] == x);
            }
        }
        if s.no_duplicates() {
            assert(init.no_duplicates());
            if init.contains(s.last()) {
                let i = choose|i: int| 0 <= i < init.len() && init[i] == s.last();
                assert(s[i] == s[s.len() - 1]);
            }
        }
    }
}

/// What is left of a merged list when every node is kept where the
/// document shows it first. The document is the list read backwards, so
/// of a node that is listed more than once the last entry stays.
pub open spec fn first_in_document(raw: Seq<usize>) -> Seq<usize> {
    without_repeats(raw.reverse()).reverse()
}

/// Drops from a merged list every entry of a node that the document, which
/// is the list read backwards, has shown before.
pub fn keep_first_in_document(raw: &Vec<usize>) -> (out: Vec<usize>)
    ensures
        out@ == first_in_document(raw@),
{
    let n = raw.len();
    let ghost document = raw@.reverse();
    let mut kept: Vec<usize> = Vec::new();
    let mut k: usize = 0;
    while k < n
        invariant
            n == raw@.len(),
            document == raw@.reverse(),
            k <= n,
            kept@ == without_repeats(document.take(k as int)),
        decreases n - k,
    {
        let x = raw[n - 1 - k];
        proof {
            assert(document.take(k + 1).drop_last() == document.take(k as int));
            assert(document.take(k + 1).last() == x);
        }
        if !contains_index(&kept, x) {
            kept.push(x);
        }
        k = k + 1;
    }
    proof {
        assert(document.take(n as int) == document);
    }
    let m = kept.len();
    let mut out: Vec<usize> = Vec::new();
    let mut i: usize = 0;
    while i < m
        invariant
            m == kept@.len(),
            i <= m,
            out@ == kept@.reverse().take(i as int),
        decreases m - i,
    {
        out.push(kept[m - 1 - i]);
        proof {
            let back = kept@.reverse();
            assert(back.take(i + 1) =~= back.take(i as int).push(back[i as int]));
        }
        i = i + 1;
    }
    proof {
        assert(kept@.reverse().take(m as int) == kept@.reverse());
    }
    out
}

} // verus!
