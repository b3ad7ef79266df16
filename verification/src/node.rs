//! One vertex of the dependency graph.
//!
//! A node refers to its predecessors by their index in the graph that holds
//! it. The methods here touch a single node; what involves a second node
//! (edges with their fan-in counters, the order of predecessors, costs of
//! branches) is done by [`crate::graph::Graph`].

use crate::text::{holds_text, sorted_unique, strictly_rising};
use std::cmp::Ordering;
use vstd::prelude::*;

verus! {

/// A calendar date by which a topic is due.
#[derive(Clone, Copy, PartialEq, Eq, Structural, Debug)]
pub struct Deadline {
    pub year: usize,
    pub month: usize,
    pub day: usize,
}

/// A topic together with its place in the graph.
pub struct Node<T> {
    /// Set once the node has been placed in an output sequence.
    pub sorted: bool,
    /// Cost of this node plus the cost of everything it depends on.
    pub dag_cost: usize,
    /// Number of nodes that hold this node among their predecessors.
    pub num_successors: usize,
    /// Cost of this node alone.
    pub cost: usize,
    /// Identity of the node inside its graph.
    pub path: String,
    /// Identities this node must come after, as declared.
    pub after: Vec<String>,
    /// Identities this node must come before, as declared.
    pub before: Vec<String>,
    /// Graph indices of the nodes that must be listed before this one.
    pub predecessors: Vec<usize>,
    /// Date by which the topic is due, if it has one.
    pub deadline: Option<Deadline>,
    /// What the topic carries; the engine never looks inside.
    pub data: T,
    /// How often the sequencer has reached this node in the current run.
    pub times_visited: usize,
}

/// Whether a branch of cost `a` goes strictly before one of cost `b`:
/// the cheaper one first when `reverse` is set, the dearer one first otherwise.
pub open spec fn cost_precedes(reverse: bool, a: usize, b: usize) -> bool {
    if reverse {
        a < b
    } else {
        a > b
    }
}

impl<T> Node<T> {
    /// A node that is linked to nothing yet, with a cost of one.
    pub fn new(filename: &String, data: T) -> (node: Node<T>)
        ensures
            node.path@ == filename@,
            node.data == data,
            node.is_detached(),
            node.after@.len() == 0,
            node.before@.len() == 0,
            node.cost == 1,
            node.dag_cost == 1,
            node.deadline is None,
            !node.sorted,
            node.times_visited == 0,
    {
        Node {
            sorted: false,
            path: filename.clone(),
            predecessors: Vec::new(),
            after: Vec::new(),
            before: Vec::new(),
            num_successors: 0,
            deadline: None,
            data,
            dag_cost: 1,
            cost: 1,
            times_visited: 0,
        }
    }

    /// No predecessors, and nothing counted as depending on this node.
    pub open spec fn is_detached(&self) -> bool {
        self.predecessors@.len() == 0 && self.num_successors == 0
    }

    /// What the record said of the topic: everything but links and traversal state.
    pub open spec fn same_record(&self, other: &Node<T>) -> bool {
        &&& self.path@ == other.path@
        &&& self.after@ == other.after@
        &&& self.before@ == other.before@
        &&& self.cost == other.cost
        &&& self.deadline == other.deadline
        &&& self.data == other.data
    }

    /// Everything but the list of predecessors is the same.
    pub open spec fn same_but_predecessors(&self, other: &Node<T>) -> bool {
        &&& self.same_record(other)
        &&& self.sorted == other.sorted
        &&& self.dag_cost == other.dag_cost
        &&& self.num_successors == other.num_successors
        &&& self.times_visited == other.times_visited
    }

    /// Replaces the payload.
    pub fn set_data(&mut self, data: T)
        ensures
            *final(self) == (Node { data, ..*old(self) }),
    {
        self.data = data;
    }

    /// Whether the sequencer has reached the node once for each node that
    /// depends on it.
    pub fn is_discovered(&self) -> (r: bool)
        ensures
            r == (self.times_visited == self.num_successors),
    {
        self.times_visited == self.num_successors
    }

    pub fn num_predecessors(&self) -> (n: usize)
        ensures
            n == self.predecessors@.len(),
    {
        self.predecessors.len()
    }

    /// Forgets links and traversal state; the record itself stays.
    pub fn reset(&mut self)
        ensures
            final(self).same_record(old(self)),
            final(self).is_detached(),
            final(self).times_visited == 0,
            final(self).dag_cost == 0,
            !final(self).sorted,
    {
        self.num_successors = 0;
        self.times_visited = 0;
        self.dag_cost = 0;
        self.sorted = false;
        self.predecessors.clear();
    }

    pub fn num_successors(&self) -> (n: usize)
        ensures
            n == self.num_successors,
    {
        self.num_successors
    }

    /// Counts one more node that depends on this one.
    pub fn incr_num_successors(&mut self)
        requires
            old(self).num_successors < usize::MAX,
        ensures
            *final(self) == (Node { num_successors: (old(self).num_successors + 1) as usize, ..*old(self) }),
    {
        self.num_successors = self.num_successors + 1;
    }

    /// Counts one more visit by the sequencer.
    pub fn incr_times_visited(&mut self)
        requires
            old(self).times_visited < usize::MAX,
        ensures
            *final(self) == (Node { times_visited: (old(self).times_visited + 1) as usize, ..*old(self) }),
    {
        self.times_visited = self.times_visited + 1;
    }

    /// Counts one node fewer that depends on this one.
    pub fn decr_num_successors(&mut self)
        requires
            old(self).num_successors > 0,
        ensures
            *final(self) == (Node { num_successors: (old(self).num_successors - 1) as usize, ..*old(self) }),
    {
        self.num_successors = self.num_successors - 1;
    }

    /// Marks the node as placed in an output sequence.
    pub fn mark_discovered(&mut self)
        ensures
            *final(self) == (Node { sorted: true, ..*old(self) }),
    {
        self.sorted = true;
    }

    pub fn has_single_successor(&self) -> (r: bool)
        ensures
            r == (self.num_successors == 1),
    {
        self.num_successors == 1
    }

    pub fn has_multiple_successors(&self) -> (r: bool)
        ensures
            r == (self.num_successors > 1),
    {
        self.num_successors > 1
    }

    /// Appends `pred_ref` to the predecessors without looking for a repeat.
    pub fn push_predecessor(&mut self, pred_ref: usize)
        ensures
            final(self).predecessors@ == old(self).predecessors@.push(pred_ref),
            final(self).same_but_predecessors(old(self)),
    {
        self.predecessors.push(pred_ref);
    }

    /// The predecessors, in the order in which the sequencer will push them.
    pub fn predecessors(&self) -> (preds: Vec<usize>)
        ensures
            preds@ == self.predecessors@,
    {
        let mut preds: Vec<usize> = Vec::new();
        let mut i: usize = 0;
        while i < self.predecessors.len()
            invariant
                i <= self.predecessors@.len(),
                preds@ == self.predecessors@.take(i as int),
            decreases self.predecessors@.len() - i,
        {
            preds.push(self.predecessors[i]);
            proof {
                assert(self.predecessors@.take(i + 1) == self.predecessors@.take(i as int).push(
                    self.predecessors@[i as int],
                ));
            }
            i = i + 1;
        }
        proof {
            assert(self.predecessors@.take(i as int) == self.predecessors@);
        }
        preds
    }

    pub fn dag_cost(&self) -> (c: usize)
        ensures
            c == self.dag_cost,
    {
        self.dag_cost
    }

    pub fn set_dag_cost(&mut self, dag_cost: usize)
        ensures
            *final(self) == (Node { dag_cost, ..*old(self) }),
    {
        self.dag_cost = dag_cost;
    }

    pub fn data(&self) -> (d: &T)
        ensures
            *d == self.data,
    {
        &self.data
    }

    /// The payload, for changing it in place.
    pub fn data_mut(&mut self) -> (d: &mut T)
        ensures
            *d == old(self).data,
            *final(self) == (Node { data: *final(d), ..*old(self) }),
    {
        &mut self.data
    }

    /// Puts what the node comes after in the order of text and drops
    /// repeats.
    pub fn dedup_after(&mut self)
        ensures
            *final(self) == (Node { after: final(self).after, ..*old(self) }),
            strictly_rising(final(self).after@),
            forall|t: Seq<char>| holds_text(final(self).after@, t) <==> holds_text(old(self).after@, t),
    {
        let sorted = sorted_unique(&self.after);
        self.after = sorted;
    }

    /// Puts what the node comes before in the order of text and drops
    /// repeats.
    pub fn dedup_before(&mut self)
        ensures
            *final(self) == (Node { before: final(self).before, ..*old(self) }),
            strictly_rising(final(self).before@),
            forall|t: Seq<char>|
                holds_text(final(self).before@, t) <==> holds_text(old(self).before@, t),
    {
        let sorted = sorted_unique(&self.before);
        self.before = sorted;
    }

    /// Position of `pred` among the predecessors.
    pub fn get_predecessor_index(&self, pred: usize) -> (r: Result<usize, ()>)
        ensures
            match r {
                Ok(i) => i < self.predecessors@.len() && self.predecessors@[i as int] == pred
                    && forall|j: int| 0 <= j < i ==> self.predecessors@[j] != pred,
                Err(_) => !self.predecessors@.contains(pred),
            },
    {
        let mut i: usize = 0;
        while i < self.predecessors.len()
            invariant
                i <= self.predecessors@.len(),
                forall|j: int| 0 <= j < i ==> self.predecessors@[j] != pred,
            decreases self.predecessors@.len() - i,
        {
            if self.predecessors[i] == pred {
                return Ok(i);
            }
            i = i + 1;
        }
        Err(())
    }

    /// Whether `pred` is among the predecessors.
    pub fn has_predecessor(&self, pred: usize) -> (r: bool)
        ensures
            r == self.predecessors@.contains(pred),
    {
        self.get_predecessor_index(pred).is_ok()
    }

    /// Index of the first occurrence of `pred` among the predecessors.
    pub open spec fn first_position(&self, pred: usize) -> Option<int> {
        if self.predecessors@.contains(pred) {
            Some(
                choose|i: int|
                    0 <= i < self.predecessors@.len() && self.predecessors@[i] == pred && forall|
                        j: int,
                    |
                        0 <= j < i ==> self.predecessors@[j] != pred,
            )
        } else {
            None
        }
    }
}

/// Whether `x` occurs in `v`.
pub fn contains_index(v: &Vec<usize>, x: usize) -> (r: bool)
    ensures
        r == v@.contains(x),
{
    let mut i: usize = 0;
    while i < v.len()
        invariant
            i <= v@.len(),
            forall|j: int| 0 <= j < i ==> v@[j] != x,
        decreases v@.len() - i,
    {
        if v[i] == x {
            return true;
        }
        i = i + 1;
    }
    false
}

/// Orders two branches by the cost of all they depend on: the dearer branch
/// first, or the cheaper one first when `reverse` is set.
pub fn compare_dag_cost<T>(reverse: bool, a: &Node<T>, b: &Node<T>) -> (r: Ordering)
    ensures
        (r is Less) == cost_precedes(reverse, a.dag_cost, b.dag_cost),
        (r is Greater) == cost_precedes(reverse, b.dag_cost, a.dag_cost),
{
    if reverse {
        if a.dag_cost < b.dag_cost {
            Ordering::Less
        } else if a.dag_cost > b.dag_cost {
            Ordering::Greater
        } else {
            Ordering::Equal
        }
    } else {
        if b.dag_cost < a.dag_cost {
            Ordering::Less
        } else if b.dag_cost > a.dag_cost {
            Ordering::Greater
        } else {
            Ordering::Equal
        }
    }
}

} // verus!
