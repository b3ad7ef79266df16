//! Headings: how deep in the outline of a document a topic stands.

use crate::graph::{edges_of, fan_in, well_formed, Graph};
use crate::node::Node;
use crate::paths::{
    acyclic_below, lemma_reachable_self, lemma_reachable_step, ranked_below, reachable,
};
use crate::text::paths_of;
use crate::topic::Topic;
use vstd::prelude::*;

verus! {

/// The rank of the cost at position `i` of a rising list: its position,
/// or the position of the first cost equal to it.
pub open spec fn rank_at(costs: Seq<usize>, i: int) -> int
    decreases i,
{
    if i <= 0 {
        0
    } else if costs[i - 1] < costs[i] {
        i
    } else {
        rank_at(costs, i - 1)
    }
}

/// What is added to every rank: nothing if headings are wanted even for
/// small branches, else the sixth-largest cost, or the largest if there
/// are fewer than six.
pub open spec fn rank_floor(extra_headings: bool, costs: Seq<usize>) -> int {
    if extra_headings || costs.len() == 0 {
        0
    } else if costs.len() >= 6 {
        costs[costs.len() - 6] as int
    } else {
        costs[costs.len() - 1] as int
    }
}

/// Whether the cost at position `i` reaches its rank.
pub open spec fn reaches_rank(extra_headings: bool, costs: Seq<usize>, i: int) -> bool {
    costs[i] >= rank_at(costs, i) + rank_floor(extra_headings, costs)
}

/// The least cost that makes a branch a section of the deepest level: the
/// first cost of the rising list `sorted_costs` that reaches its rank,
/// or zero if none does.
pub fn compute_min_dag_costs(extra_headings: bool, sorted_costs: Vec<usize>) -> (min_cost: usize)
    ensures
        (forall|i: int|
            0 <= i < sorted_costs@.len() ==> !reaches_rank(extra_headings, sorted_costs@, i))
            ==> min_cost == 0,
        (exists|i: int| 0 <= i < sorted_costs@.len() && reaches_rank(extra_headings, sorted_costs@, i))
            ==> exists|i: int|
            0 <= i < sorted_costs@.len() && reaches_rank(extra_headings, sorted_costs@, i)
                && min_cost == sorted_costs@[i] && forall|j: int|
                0 <= j < i ==> !reaches_rank(extra_headings, sorted_costs@, j),
{
    let n = sorted_costs.len();
    if n == 0 {
        return 0;
    }
    let floor = if extra_headings {
        0
    } else if n >= 6 {
        sorted_costs[n - 6]
    } else {
        sorted_costs[n - 1]
    };
    let mut rank: usize = 0;
    let mut i: usize = 0;
    while i < n
        invariant
            n == sorted_costs@.len(),
            i <= n,
            floor == rank_floor(extra_headings, sorted_costs@),
            i > 0 ==> rank == rank_at(sorted_costs@, i - 1),
            i > 0 ==> rank < i,
            forall|j: int| 0 <= j < i ==> !reaches_rank(extra_headings, sorted_costs@, j),
        decreases n - i,
    {
        if i > 0 && sorted_costs[i - 1] < sorted_costs[i] {
            rank = i;
        } else if i == 0 {
            rank = 0;
        }
        let cost = sorted_costs[i];
        proof {
            assert(rank == rank_at(sorted_costs@, i as int));
            assert(reaches_rank(extra_headings, sorted_costs@, i as int) == (cost >= floor && cost
                - floor >= rank));
        }
        if cost >= floor && cost - floor >= rank {
            return cost;
        }
        i = i + 1;
    }
    0
}

/// `new` differs from `old` at most in what the topics say of headings.
pub open spec fn same_but_headings(old: Seq<Node<Topic>>, new: Seq<Node<Topic>>) -> bool {
    &&& new.len() == old.len()
    &&& forall|i: int|
        0 <= i < old.len() ==> (#[trigger] new[i]) == (Node {
            data: Topic {
                heading_depth: new[i].data.heading_depth,
                heading_depth_start: new[i].data.heading_depth_start,
                heading_titles: new[i].data.heading_titles,
                ..old[i].data
            },
            ..old[i]
        })
}

/// Changing what topics say of headings keeps a registry well-formed.
pub proof fn lemma_headings_keep_wf(old: Seq<Node<Topic>>, new: Seq<Node<Topic>>)
    requires
        well_formed(old),
        same_but_headings(old, new),
    ensures
        well_formed(new),
        edges_of(new) == edges_of(old),
{
    assert(edges_of(new) =~= edges_of(old));
    assert forall|i: int, j: int| 0 <= i < j < new.len() implies (#[trigger] new[i]).path@
        != (#[trigger] new[j]).path@ by {
        assert(old[i].path@ != old[j].path@);
    }
    assert forall|v: usize| v < new.len() implies (#[trigger] new[v as int]).num_successors
        == fan_in(edges_of(new), v) by {
        assert(old[v as int].num_successors == fan_in(edges_of(old), v));
    }
}

/// Changing headings twice over changes headings.
pub proof fn lemma_headings_trans(a: Seq<Node<Topic>>, b: Seq<Node<Topic>>, c: Seq<Node<Topic>>)
    requires
        same_but_headings(a, b),
        same_but_headings(b, c),
    ensures
        same_but_headings(a, c),
{
}

/// How deep every topic stands, by index.
pub open spec fn depths_of(nodes: Seq<Node<Topic>>) -> Seq<usize> {
    Seq::new(nodes.len(), |i: int| nodes[i].data.heading_depth)
}

/// What every node costs in all, by index.
pub open spec fn costs_of(nodes: Seq<Node<Topic>>) -> Seq<usize> {
    Seq::new(nodes.len(), |i: int| nodes[i].dag_cost)
}

/// One level deeper than `depth`.
pub open spec fn one_deeper(depth: usize) -> usize {
    if depth < usize::MAX {
        (depth + 1) as usize
    } else {
        depth
    }
}

/// The depths that the walk below `node` leaves, from its `k`-th
/// predecessor on. Each predecessor in turn is put one level below `node`
/// if it costs more than `min_cost` and is not the only predecessor; then
/// the walk goes through everything below that predecessor before it
/// turns to the next. `rank` falls along every edge, which bounds the
/// walk.
pub open spec fn deepened(
    edges: Seq<Seq<usize>>,
    costs: Seq<usize>,
    top: usize,
    rank: Seq<nat>,
    min_cost: usize,
    depths: Seq<usize>,
    node: int,
    k: int,
) -> Seq<usize>
    decreases rank[node], edges[node].len() - k,
    when ranked_below(edges, top, rank) && reachable(edges, top, node as usize) && 0 <= k && 0
        <= node < edges.len() <= usize::MAX
{
    if k >= edges[node].len() {
        depths
    } else {
        let p = edges[node][k] as int;
        let marked = if costs[p] > min_cost && edges[node].len() > 1 {
            depths.update(p, one_deeper(depths[node]))
        } else {
            depths
        };
        let below = deepened(edges, costs, top, rank, min_cost, marked, p, 0);
        deepened(edges, costs, top, rank, min_cost, below, node, k + 1)
    }
}

/// The depths that [`Graph::set_heading_depth`] leaves.
pub open spec fn heading_depths_below(
    nodes: Seq<Node<Topic>>,
    node: usize,
    min_cost: usize,
) -> Seq<usize> {
    deepened(
        edges_of(nodes),
        costs_of(nodes),
        node,
        choose|rank: Seq<nat>| ranked_below(edges_of(nodes), node, rank),
        min_cost,
        depths_of(nodes),
        node as int,
        0,
    )
}

/// The headings that open at a topic, as plain values.
#[verifier::ext_equal]
pub struct Opening {
    /// The titles, in the order in which they were given.
    pub titles: Seq<Seq<char>>,
    /// The level of the first of them.
    pub start: usize,
}

/// The headings that open at every topic, by index.
pub open spec fn openings_of(nodes: Seq<Node<Topic>>) -> Seq<Opening> {
    Seq::new(
        nodes.len(),
        |i: int|
            Opening {
                titles: paths_of(nodes[i].data.heading_titles@),
                start: nodes[i].data.heading_depth_start,
            },
    )
}

/// The labels of all topics, by index.
pub open spec fn labels_of(nodes: Seq<Node<Topic>>) -> Seq<Seq<char>> {
    Seq::new(nodes.len(), |i: int| nodes[i].data.label@)
}

/// The title of the section of level `search` that is being read when
/// the first `k` topics of `sorted` have been read: the label of the last
/// of them that stands at that level, unless a topic of a level above has
/// been read since.
pub open spec fn title_before(
    depths: Seq<usize>,
    labels: Seq<Seq<char>>,
    sorted: Seq<usize>,
    search: usize,
    k: int,
) -> Seq<char>
    decreases k,
{
    if k <= 0 {
        Seq::<char>::empty()
    } else {
        let d = depths[sorted[k - 1] as int];
        if d == search {
            labels[sorted[k - 1] as int]
        } else if d < search && d > 0 {
            Seq::<char>::empty()
        } else {
            title_before(depths, labels, sorted, search, k - 1)
        }
    }
}

/// Whether the topic at position `j` of `sorted` closes a section of level
/// `search` or above, so that the topic read before it gets a title.
pub open spec fn closes_section(depths: Seq<usize>, sorted: Seq<usize>, search: usize, j: int) -> bool {
    j > 0 && 0 < depths[sorted[j] as int] <= search
}

/// `state` with one more title at topic `i`, whose first title is then of
/// level `start`.
pub open spec fn with_title(
    state: Seq<Opening>,
    i: int,
    title: Seq<char>,
    start: usize,
) -> Seq<Opening> {
    state.update(i, Opening { titles: state[i].titles.push(title), start })
}

/// The headings after the first `k` topics of `sorted` have been read for
/// level `search`.
pub open spec fn titled_upto(
    state: Seq<Opening>,
    depths: Seq<usize>,
    labels: Seq<Seq<char>>,
    sorted: Seq<usize>,
    search: usize,
    k: int,
) -> Seq<Opening>
    decreases k,
{
    if k <= 0 {
        state
    } else {
        let before = titled_upto(state, depths, labels, sorted, search, k - 1);
        if closes_section(depths, sorted, search, k - 1) {
            with_title(
                before,
                sorted[k - 2] as int,
                title_before(depths, labels, sorted, search, k - 1),
                depths[sorted[k - 1] as int],
            )
        } else {
            before
        }
    }
}

/// The headings after all of `sorted` has been read for level `search`:
/// the last topic, which opens the document, gets the title that is left.
pub open spec fn titled_level(
    state: Seq<Opening>,
    depths: Seq<usize>,
    labels: Seq<Seq<char>>,
    sorted: Seq<usize>,
    search: usize,
) -> Seq<Opening> {
    with_title(
        titled_upto(state, depths, labels, sorted, search, sorted.len() as int),
        sorted[sorted.len() - 1] as int,
        title_before(depths, labels, sorted, search, sorted.len() as int),
        1,
    )
}

/// The headings after `sorted` has been read for the levels 1 to `levels`.
pub open spec fn titled_all(
    state: Seq<Opening>,
    depths: Seq<usize>,
    labels: Seq<Seq<char>>,
    sorted: Seq<usize>,
    levels: int,
) -> Seq<Opening>
    decreases levels,
{
    if levels <= 0 {
        state
    } else {
        titled_level(
            titled_all(state, depths, labels, sorted, levels - 1),
            depths,
            labels,
            sorted,
            levels as usize,
        )
    }
}

/// The walk that [`Graph::set_heading_depth`] makes.
fn deepen(
    nodes: &mut Graph<Topic>,
    node: usize,
    min_cost: &usize,
    Ghost(rank): Ghost<Seq<nat>>,
    Ghost(top): Ghost<usize>,
)
    requires
        old(nodes).wf(),
        node < old(nodes)@.len(),
        ranked_below(edges_of(old(nodes)@), top, rank),
        reachable(edges_of(old(nodes)@), top, node),
    ensures
        final(nodes).wf(),
        same_but_headings(old(nodes)@, final(nodes)@),
        openings_of(final(nodes)@) == openings_of(old(nodes)@),
        depths_of(final(nodes)@) == deepened(
            edges_of(old(nodes)@),
            costs_of(old(nodes)@),
            top,
            rank,
            *min_cost,
            depths_of(old(nodes)@),
            node as int,
            0,
        ),
    decreases rank[node as int],
{
    let ghost edges = edges_of(nodes@);
    let ghost costs = costs_of(nodes@);
    let ghost goal = deepened(
        edges,
        costs,
        top,
        rank,
        *min_cost,
        depths_of(nodes@),
        node as int,
        0,
    );
    let count = nodes.nodes[node].predecessors.len();
    let mut k: usize = 0;
    while k < count
        invariant
            well_formed(old(nodes)@),
            nodes.wf(),
            node < nodes@.len(),
            edges == edges_of(old(nodes)@),
            costs == costs_of(old(nodes)@),
            ranked_below(edges, top, rank),
            reachable(edges, top, node),
            same_but_headings(old(nodes)@, nodes@),
            openings_of(nodes@) == openings_of(old(nodes)@),
            count == edges[node as int].len(),
            k <= count,
            deepened(
                edges,
                costs,
                top,
                rank,
                *min_cost,
                depths_of(nodes@),
                node as int,
                k as int,
            )
                == goal,
        decreases count - k,
    {
        let ghost before = nodes@;
        proof {
            lemma_headings_keep_wf(old(nodes)@, before);
            assert(before[node as int].predecessors@ == edges[node as int]);
            assert(edges[node as int].no_duplicates());
            assert(rank[edges[node as int][k as int] as int] < rank[node as int]);
            assert(costs_of(before) =~= costs);
        }
        let p = nodes.nodes[node].predecessors[k];
        let possibly_parallel = nodes.nodes[p].dag_cost > *min_cost && count > 1;
        if possibly_parallel {
            let depth = nodes.nodes[node].data.heading_depth;
            nodes.nodes[p].data.heading_depth = if depth < usize::MAX {
                depth + 1
            } else {
                depth
            };
        }
        let ghost marked = nodes@;
        proof {
            assert(same_but_headings(before, marked));
            lemma_headings_trans(old(nodes)@, before, marked);
            lemma_headings_keep_wf(old(nodes)@, marked);
            assert(openings_of(marked) =~= openings_of(before));
            assert(costs_of(marked) =~= costs);
            assert(depths_of(marked) =~= if costs[p as int] > *min_cost && edges[node as int].len()
                > 1 {
                depths_of(before).update(p as int, one_deeper(depths_of(before)[node as int]))
            } else {
                depths_of(before)
            });
        }
        proof {
            lemma_reachable_step(edges, top, node, p);
        }
        deepen(nodes, p, min_cost, Ghost(rank), Ghost(top));
        proof {
            lemma_headings_trans(old(nodes)@, marked, nodes@);
        }
        k = k + 1;
    }
}

impl Graph<Topic> {
    /// Sets how deep in the outline the topics below `node` stand. A
    /// predecessor that costs more than `min_cost`, and is not the only
    /// predecessor of its node, stands one level deeper than that node;
    /// the walk goes on into every predecessor, one after the other. The
    /// edges below `node` must hold no cycle.
    pub fn set_heading_depth(&mut self, node: usize, min_cost: &usize)
        requires
            old(self).wf(),
            node < old(self)@.len(),
            acyclic_below(edges_of(old(self)@), node),
        ensures
            final(self).wf(),
            same_but_headings(old(self)@, final(self)@),
            openings_of(final(self)@) == openings_of(old(self)@),
            depths_of(final(self)@) == heading_depths_below(old(self)@, node, *min_cost),
    {
        let ghost rank = choose|rank: Seq<nat>| ranked_below(edges_of(self@), node, rank);
        proof {
            lemma_reachable_self(edges_of(self@), node);
        }
        deepen(self, node, min_cost, Ghost(rank), Ghost(node));
    }
}

/// Gives the topics of `sorted_nodes` the headings that open at them. The
/// list is read front to back, which is the document back to front. For
/// each of the six levels in turn, the title of the section being read is
/// the label of the last topic met at that level; a topic at that level
/// or above closes the section, and the topic read before it, which comes
/// next in the document, gets the title. The last topic of the list opens
/// the document and gets a title for every level. An empty list changes
/// nothing.
pub fn add_heading_titles_to_nodes(nodes: &mut Graph<Topic>, sorted_nodes: &Vec<usize>)
    requires
        old(nodes).wf(),
        forall|i: int|
            0 <= i < sorted_nodes@.len() ==> (#[trigger] sorted_nodes@[i]) < old(nodes)@.len(),
    ensures
        final(nodes).wf(),
        same_but_headings(old(nodes)@, final(nodes)@),
        depths_of(final(nodes)@) == depths_of(old(nodes)@),
        sorted_nodes@.len() == 0 ==> final(nodes)@ == old(nodes)@,
        sorted_nodes@.len() > 0 ==> openings_of(final(nodes)@) == titled_all(
            openings_of(old(nodes)@),
            depths_of(old(nodes)@),
            labels_of(old(nodes)@),
            sorted_nodes@,
            6,
        ),
{
    let n = sorted_nodes.len();
    if n == 0 {
        return ;
    }
    let ghost start = openings_of(nodes@);
    let ghost depths = depths_of(nodes@);
    let ghost labels = labels_of(nodes@);
    let last = sorted_nodes[n - 1];
    let mut search_heading_depth: usize = 1;
    while search_heading_depth < 7
        invariant
            well_formed(old(nodes)@),
            same_but_headings(old(nodes)@, nodes@),
            start == openings_of(old(nodes)@),
            depths == depths_of(old(nodes)@),
            labels == labels_of(old(nodes)@),
            depths_of(nodes@) == depths,
            n == sorted_nodes@.len(),
            n > 0,
            last == sorted_nodes@[n - 1],
            1 <= search_heading_depth <= 7,
            forall|i: int|
                0 <= i < sorted_nodes@.len() ==> (#[trigger] sorted_nodes@[i]) < old(nodes)@.len(),
            openings_of(nodes@) == titled_all(
                start,
                depths,
                labels,
                sorted_nodes@,
                search_heading_depth - 1,
            ),
        decreases 7 - search_heading_depth,
    {
        let ghost level_start = openings_of(nodes@);
        let mut heading_title = String::new();
        let mut k: usize = 0;
        while k < n
            invariant
                well_formed(old(nodes)@),
                same_but_headings(old(nodes)@, nodes@),
                depths == depths_of(old(nodes)@),
                labels == labels_of(old(nodes)@),
                depths_of(nodes@) == depths,
                n == sorted_nodes@.len(),
                k <= n,
                forall|i: int|
                    0 <= i < sorted_nodes@.len() ==> (#[trigger] sorted_nodes@[i]) < old(
                        nodes,
                    )@.len(),
                heading_title@ == title_before(
                    depths,
                    labels,
                    sorted_nodes@,
                    search_heading_depth,
                    k as int,
                ),
                openings_of(nodes@) == titled_upto(
                    level_start,
                    depths,
                    labels,
                    sorted_nodes@,
                    search_heading_depth,
                    k as int,
                ),
            decreases n - k,
        {
            let current = sorted_nodes[k];
            let current_heading_depth = nodes.nodes[current].data.heading_depth;
            let ghost before = nodes@;
            proof {
                assert(current_heading_depth == depths[current as int]);
                assert(nodes@[current as int].data.label@ == labels[current as int]);
            }
            if k > 0 && current_heading_depth <= search_heading_depth && current_heading_depth > 0 {
                let prev = sorted_nodes[k - 1];
                nodes.nodes[prev].data.heading_titles.push(heading_title.clone());
                nodes.nodes[prev].data.heading_depth_start = current_heading_depth;
                proof {
                    assert(same_but_headings(before, nodes@));
                    lemma_headings_trans(old(nodes)@, before, nodes@);
                    assert(depths_of(nodes@) =~= depths);
                    assert(paths_of(nodes@[prev as int].data.heading_titles@) =~= paths_of(
                        before[prev as int].data.heading_titles@,
                    ).push(heading_title@));
                    assert(openings_of(nodes@) =~~= with_title(
                        openings_of(before),
                        prev as int,
                        heading_title@,
                        current_heading_depth,
                    ));
                }
            }
            if current_heading_depth == search_heading_depth {
                heading_title = nodes.nodes[current].data.label.clone();
            } else if current_heading_depth < search_heading_depth && current_heading_depth > 0 {
                heading_title = String::new();
            }
            k = k + 1;
        }
        let ghost before = nodes@;
        nodes.nodes[last].data.heading_titles.push(heading_title.clone());
        nodes.nodes[last].data.heading_depth_start = 1;
        proof {
            assert(same_but_headings(before, nodes@));
            lemma_headings_trans(old(nodes)@, before, nodes@);
            assert(depths_of(nodes@) =~= depths);
            assert(paths_of(nodes@[last as int].data.heading_titles@) =~= paths_of(
                before[last as int].data.heading_titles@,
            ).push(heading_title@));
            assert(openings_of(nodes@) =~~= with_title(
                openings_of(before),
                last as int,
                heading_title@,
                1,
            ));
        }
        search_heading_depth = search_heading_depth + 1;
    }
    proof {
        lemma_headings_keep_wf(old(nodes)@, nodes@);
    }
}

} // verus!
