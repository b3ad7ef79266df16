//! The branch orderer: in which order a node's predecessors are walked.
//!
//! Branches are ordered by what they cost, or by their deadlines first and
//! by cost among branches without one. Branches that rank alike keep the
//! order they had.

use crate::node::{compare_dag_cost, cost_precedes, Deadline, Node};
use std::cmp::Ordering;
use vstd::prelude::*;

verus! {

/// By what the predecessors of a node are ordered.
#[derive(Clone, Copy, PartialEq, Eq, Structural, Debug)]
pub enum BranchOrder {
    /// By aggregate cost alone.
    Cost,
    /// Branches with a deadline first, the earlier deadline first; branches
    /// without one after them, by aggregate cost.
    Deadline,
}

/// Whether the date `a` is earlier than the date `b`: by year, then month,
/// then day.
pub open spec fn deadline_before(a: Deadline, b: Deadline) -> bool {
    a.year < b.year || (a.year == b.year && (a.month < b.month || (a.month == b.month && a.day
        < b.day)))
}

/// Whether branch `a` goes strictly before branch `b` when deadlines count.
pub open spec fn branch_precedes<T>(reverse: bool, a: Node<T>, b: Node<T>) -> bool {
    match (a.deadline, b.deadline) {
        (None, None) => cost_precedes(reverse, a.dag_cost, b.dag_cost),
        (Some(_), None) => true,
        (None, Some(_)) => false,
        (Some(x), Some(y)) => deadline_before(x, y),
    }
}

/// Whether branch `a` goes strictly before branch `b` under `order`.
pub open spec fn precedes<T>(order: BranchOrder, reverse: bool, a: Node<T>, b: Node<T>) -> bool {
    match order {
        BranchOrder::Cost => cost_precedes(reverse, a.dag_cost, b.dag_cost),
        BranchOrder::Deadline => branch_precedes(reverse, a, b),
    }
}

/// Whether `a` stands before `b` once `list` is ordered: `a` goes strictly
/// before `b`, or the two rank alike and `a` stood before `b` in `list`.
pub open spec fn placed_before<T>(
    nodes: Seq<Node<T>>,
    order: BranchOrder,
    reverse: bool,
    list: Seq<usize>,
    a: usize,
    b: usize,
) -> bool {
    precedes(order, reverse, nodes[a as int], nodes[b as int]) || (!precedes(
        order,
        reverse,
        nodes[b as int],
        nodes[a as int],
    ) && list.index_of(a) < list.index_of(b))
}

/// `out` holds the elements of `list`, each once, in the order that
/// [`placed_before`] gives.
pub open spec fn is_ordering_of<T>(
    nodes: Seq<Node<T>>,
    order: BranchOrder,
    reverse: bool,
    list: Seq<usize>,
    out: Seq<usize>,
) -> bool {
    &&& out.len() == list.len()
    &&& out.no_duplicates()
    &&& forall|x: usize| out.contains(x) <==> list.contains(x)
    &&& forall|i: int, j: int|
        0 <= i < j < out.len() ==> placed_before(
            nodes,
            order,
            reverse,
            list,
            #[trigger] out[i],
            #[trigger] out[j],
        )
}

/// In a list without repeats an element has one position.
pub proof fn lemma_index_of_unique(s: Seq<usize>, i: int)
    requires
        s.no_duplicates(),
        0 <= i < s.len(),
    ensures
        s.index_of(s[i]) == i,
{
    assert(s.contains(s[i]));
    let k = s.index_of(s[i]);
    assert(0 <= k < s.len() && s[k] == s[i]);
}

/// Orders two branches: one with a deadline before one without; two with
/// deadlines by date; two without by aggregate cost, the dearer first or,
/// when `reverse` is set, the cheaper first.
pub fn compute_ordering<T>(reverse: bool, a: &Node<T>, b: &Node<T>) -> (r: Ordering)
    ensures
        (r is Less) == branch_precedes(reverse, *a, *b),
        (r is Greater) == branch_precedes(reverse, *b, *a),
{
    match (&a.deadline, &b.deadline) {
        (None, None) => compare_dag_cost(reverse, a, b),
        (Some(_), None) => Ordering::Less,
        (None, Some(_)) => Ordering::Greater,
        (Some(adl), Some(bdl)) => {
            if adl.year > bdl.year {
                Ordering::Greater
            } else if adl.year < bdl.year {
                Ordering::Less
            } else if adl.month > bdl.month {
                Ordering::Greater
            } else if adl.month < bdl.month {
                Ordering::Less
            } else if adl.day > bdl.day {
                Ordering::Greater
            } else if adl.day < bdl.day {
                Ordering::Less
            } else {
                Ordering::Equal
            }
        },
    }
}

/// Whether branch `a` goes strictly before branch `b` under `order`.
pub fn goes_first<T>(order: BranchOrder, reverse: bool, a: &Node<T>, b: &Node<T>) -> (r: bool)
    ensures
        r == precedes(order, reverse, *a, *b),
{
    let found = match order {
        BranchOrder::Cost => compare_dag_cost(reverse, a, b),
        BranchOrder::Deadline => compute_ordering(reverse, a, b),
    };
    match found {
        Ordering::Less => true,
        _ => false,
    }
}

} // verus!
