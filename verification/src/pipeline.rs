//! From a registry and what its root declares to a graph that is ready to
//! be walked: built, reduced, weighed, and with every branch in order.

use crate::branch::BranchSet;
use crate::plan::{entries_of, planned, steady};
use crate::branches::{branches_ordered, each_ordered, reordered, reordered_at};
use crate::builder::{all_after_linked, built, kept_at, read_failed};
use crate::dag::build_dag_from_nodes;
use crate::ranks::{all_before_joined, all_kept};
use crate::cost::{evaluated, evaluation, same_but_costs, totals_of};
use crate::graph::{edges_of, well_formed, Graph};
use crate::loader::RecordLoadError;
use crate::node::Node;
use crate::options::Options;
use crate::order::BranchOrder;
use crate::reducer::{
    no_shortcuts, reduced_in_turn, remove_all_indirect_predecessors, thinned, thinned_at,
};
use vstd::prelude::*;

verus! {

/// The nodes of `old` are in `new` with their records and traversal state.
pub open spec fn records_kept<T>(old: Seq<Node<T>>, new: Seq<Node<T>>) -> bool {
    &&& old.len() <= new.len()
    &&& forall|i: int|
        0 <= i < old.len() ==> (#[trigger] new[i]).same_record(&old[i]) && new[i].sorted
            == old[i].sorted && new[i].times_visited == old[i].times_visited
}

/// The stages that lead from a registry `old` to a graph `new` that is
/// ready to be walked from `root`: `mid` is built from `old` and links
/// what `root` declares, and where the depth has no limit it has dropped
/// nothing of what is declared without a cycle; `thin` is `mid` with
/// every node reduced in turn;
/// `weighed` is `thin` with the costs below `root` evaluated; `new` is
/// `weighed` with the predecessors of every node ordered by deadline and
/// cost.
pub open spec fn staged<T>(
    old: Seq<Node<T>>,
    mid: Seq<Node<T>>,
    thin: Seq<Node<T>>,
    weighed: Seq<Node<T>>,
    new: Seq<Node<T>>,
    root: usize,
    reverse: bool,
    sdepth: i64,
) -> bool {
    &&& built(old, mid)
    &&& all_after_linked(old, mid, root, Seq::<usize>::empty())
    &&& sdepth != 0 ==> all_before_joined(old, mid, root, Seq::<usize>::empty())
    &&& sdepth < 0 ==> all_kept(
        old,
        mid,
        root as int,
        Seq::<usize>::empty(),
        Seq::<usize>::empty(),
    )
    &&& reduced_in_turn(mid, thin)
    &&& thinned(mid, thin)
    &&& forall|v: int| 0 <= v < thin.len() ==> #[trigger] no_shortcuts(thin, v)
    &&& same_but_costs(thin, weighed)
    &&& totals_of(weighed) == evaluation(thin, root).totals
    &&& evaluated(thin, weighed, root)
    &&& reordered(weighed, new)
    &&& each_ordered(weighed, new, BranchOrder::Deadline, reverse)
}

/// Reordering predecessor lists brings in no shortcut.
pub proof fn lemma_reorder_keeps_no_shortcuts<T>(a: Seq<Node<T>>, b: Seq<Node<T>>, v: int)
    requires
        well_formed(a),
        reordered(a, b),
        0 <= v < a.len(),
        no_shortcuts(a, v),
    ensures
        no_shortcuts(b, v),
{
    let list = b[v].predecessors@;
    let was = a[v].predecessors@;
    assert(reordered_at(a, b, v));
    assert forall|i: int, j: int|
        #![trigger list[i], list[j]]
        0 <= i < list.len() && 0 <= j < list.len() implies !b[list[i] as int].predecessors@.contains(
    list[j]) by {
        assert(list.contains(list[i]) && list.contains(list[j]));
        let x = choose|x: int| 0 <= x < was.len() && was[x] == list[i];
        let y = choose|y: int| 0 <= y < was.len() && was[y] == list[j];
        assert(edges_of(a)[v][x] == list[i]);
        assert(edges_of(a)[v].no_duplicates());
        assert(reordered_at(a, b, list[i] as int));
        assert(!a[was[x] as int].predecessors@.contains(was[y]));
    }
}

/// Builds the graph below `root`, reduces every node, evaluates the costs
/// below `root`, and orders the predecessors of every node: those with a
/// deadline first, by date, the others by cost, the dearer first or, if
/// `options.reverse` is set, the cheaper first. Stops at the first record
/// that cannot be read.
pub fn build_graph_wrapper<T, U, R, C>(
    root: usize,
    nodes: &mut Graph<T>,
    read_from_file: &R,
    create_node: &C,
    options: &Options,
    sdepth: i64,
) -> (r: Result<(), RecordLoadError>) where
    R: Fn(&String) -> Option<U>,
    C: Fn(&String, U) -> Node<T>,

    requires
        old(nodes).wf(),
        root < old(nodes)@.len(),
        forall|s: &String| call_requires(*read_from_file, (s,)),
        forall|s: &String, u: U| call_requires(*create_node, (s, u)),
    ensures
        final(nodes).wf(),
        records_kept(old(nodes)@, final(nodes)@),
        match r {
            Ok(_) => {
                &&& exists|mid: Seq<Node<T>>, thin: Seq<Node<T>>, weighed: Seq<Node<T>>|
                    staged(
                        old(nodes)@,
                        mid,
                        thin,
                        weighed,
                        final(nodes)@,
                        root,
                        options.reverse,
                        sdepth,
                    ) && (steady(*read_from_file, *create_node) ==> planned(
                        *read_from_file,
                        *create_node,
                        entries_of(old(nodes)@),
                        root,
                        sdepth,
                    ) == Some(entries_of(mid)))
                &&& forall|v: int|
                    0 <= v < final(nodes)@.len() ==> #[trigger] no_shortcuts(final(nodes)@, v)
                &&& forall|v: int|
                    0 <= v < final(nodes)@.len() ==> #[trigger] branches_ordered(
                        final(nodes)@,
                        v,
                        BranchOrder::Deadline,
                        options.reverse,
                    )
            },
            Err(e) => read_failed(*read_from_file, e.id@),
        },
        steady(*read_from_file, *create_node) ==> (r is Ok <==> planned(
            *read_from_file,
            *create_node,
            entries_of(old(nodes)@),
            root,
            sdepth,
        ) is Some),
{
    let mut pbranch = BranchSet::new();
    let mut sbranch = BranchSet::new();
    proof {
        assert(pbranch@ =~= Seq::<usize>::empty());
        assert(sbranch@ =~= Seq::<usize>::empty());
    }
    let built_ok = build_dag_from_nodes(
        root,
        nodes,
        &mut pbranch,
        &mut sbranch,
        read_from_file,
        create_node,
        sdepth,
    );
    let ghost mid = nodes@;
    proof {
        assert forall|i: int| 0 <= i < old(nodes)@.len() implies (#[trigger] mid[i]).same_record(
            &old(nodes)@[i],
        ) && mid[i].sorted == old(nodes)@[i].sorted && mid[i].times_visited == old(nodes)@[i].times_visited by {
            assert(kept_at(old(nodes)@, mid, i));
        }
    }
    match built_ok {
        Err(e) => {
            return Err(e);
        },
        Ok(_) => {},
    }
    remove_all_indirect_predecessors(nodes);
    let ghost thin = nodes@;
    nodes.compute_dag_cost(root);
    let ghost weighed = nodes@;
    nodes.sort_all_branches(options.reverse, BranchOrder::Deadline);
    proof {
        let new = nodes@;
        assert(pbranch@ =~= Seq::<usize>::empty());
        assert(sbranch@ =~= Seq::<usize>::empty());
        assert forall|i: int| 0 <= i < old(nodes)@.len() implies (#[trigger] new[i]).same_record(
            &old(nodes)@[i],
        ) && new[i].sorted == old(nodes)@[i].sorted && new[i].times_visited == old(nodes)@[i].times_visited by {
            assert(thinned_at(mid, thin, i));
            assert(reordered_at(weighed, new, i));
        }
        assert forall|v: int| 0 <= v < new.len() implies #[trigger] no_shortcuts(new, v) by {
            assert(no_shortcuts(thin, v));
            assert(no_shortcuts(weighed, v)) by {
                let list = weighed[v].predecessors@;
                assert(list == thin[v].predecessors@);
                assert forall|i: int, j: int|
                    #![trigger list[i], list[j]]
                    0 <= i < list.len() && 0 <= j < list.len() implies !weighed[list[i] as int].predecessors@.contains(
                list[j]) by {
                    assert(edges_of(thin)[v][i] == list[i]);
                    assert(edges_of(thin)[v].no_duplicates());
                }
            }
            lemma_reorder_keeps_no_shortcuts(weighed, new, v);
        }
        assert(staged(old(nodes)@, mid, thin, weighed, new, root, options.reverse, sdepth) && (
        steady(*read_from_file, *create_node) ==> planned(
            *read_from_file,
            *create_node,
            entries_of(old(nodes)@),
            root,
            sdepth,
        ) == Some(entries_of(mid))));
    }
    Ok(())
}

} // verus!
