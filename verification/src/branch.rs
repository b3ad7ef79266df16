//! The nodes on the path that the builder is exploring.

use crate::counting::{count_below, lemma_count_flip};
use crate::node::contains_index;
use vstd::prelude::*;

verus! {

/// A set of nodes, by index: the nodes on the path from the node where a
/// build began to the node it is looking at, in one direction.
pub struct BranchSet {
    pub members: Vec<usize>,
}

impl View for BranchSet {
    type V = Seq<usize>;

    open spec fn view(&self) -> Seq<usize> {
        self.members@
    }
}

/// `members` with `x`, which is put last unless it is there.
pub open spec fn with_member(members: Seq<usize>, x: usize) -> Seq<usize> {
    if members.contains(x) {
        members
    } else {
        members.push(x)
    }
}

/// The predicate "node `i` is not in `members`".
pub open spec fn absent(members: Seq<usize>) -> spec_fn(int) -> bool {
    |i: int| !members.contains(i as usize)
}

/// How many of the first `n` nodes are not in `members`.
pub open spec fn free(members: Seq<usize>, n: int) -> nat {
    count_below(n, absent(members))
}

/// One node more on the path leaves one node fewer off it.
pub proof fn lemma_free_after_insert(members: Seq<usize>, x: usize, n: int)
    requires
        x < n <= usize::MAX,
        !members.contains(x),
    ensures
        free(members.push(x), n) + 1 == free(members, n),
{
    let p = absent(members.push(x));
    let q = absent(members);
    assert(members.push(x)[members.len() as int] == x);
    assert forall|i: int| 0 <= i < n && i != x implies #[trigger] p(i) == q(i) by {
        if members.contains(i as usize) {
            let k = choose|k: int| 0 <= k < members.len() && members[k] == i as usize;
            assert(members.push(x)[k] == i as usize);
        }
        if members.push(x).contains(i as usize) {
            let k = choose|k: int|
                0 <= k < members.push(x).len() && members.push(x)[k] == i as usize;
            assert(members[k] == i as usize);
        }
    }
    lemma_count_flip(n, p, q, x as int);
}

impl BranchSet {
    /// No node is held twice.
    pub open spec fn wf(&self) -> bool {
        self@.no_duplicates()
    }

    /// The empty set.
    pub fn new() -> (set: BranchSet)
        ensures
            set@.len() == 0,
            set.wf(),
    {
        BranchSet { members: Vec::new() }
    }

    /// Whether `x` is in the set.
    pub fn contains(&self, x: usize) -> (r: bool)
        ensures
            r == self@.contains(x),
    {
        contains_index(&self.members, x)
    }

    /// Puts `x` into the set and says whether it was new.
    pub fn insert(&mut self, x: usize) -> (added: bool)
        requires
            old(self).wf(),
        ensures
            final(self).wf(),
            added == !old(self)@.contains(x),
            added ==> final(self)@ == old(self)@.push(x),
            !added ==> final(self)@ == old(self)@,
    {
        if self.contains(x) {
            false
        } else {
            self.members.push(x);
            proof {
                let prev = old(self)@;
                let next = self@;
                assert forall|i: int, j: int|
                    0 <= i < next.len() && 0 <= j < next.len() && i != j implies next[i]
                    != next[j] by {
                    if i < prev.len() && j < prev.len() {
                        assert(prev[i] != prev[j]);
                    } else if i < prev.len() {
                        assert(prev.contains(prev[i]));
                    } else {
                        assert(prev.contains(prev[j]));
                    }
                }
            }
            true
        }
    }

    /// Takes `x` out of the set and says whether it was there.
    pub fn remove(&mut self, x: usize) -> (removed: bool)
        requires
            old(self).wf(),
        ensures
            final(self).wf(),
            removed == old(self)@.contains(x),
            !final(self)@.contains(x),
            forall|y: usize| y != x ==> final(self)@.contains(y) == old(self)@.contains(y),
            forall|prev: Seq<usize>| old(self)@ == prev.push(x) ==> final(self)@ == prev,
            !removed ==> final(self)@ == old(self)@,
    {
        let mut i: usize = 0;
        while i < self.members.len()
            invariant
                i <= self@.len(),
                self@ == old(self)@,
                self@.no_duplicates(),
                forall|j: int| 0 <= j < i ==> self@[j] != x,
            decreases self@.len() - i,
        {
            if self.members[i] == x {
                self.members.remove(i);
                proof {
                    let prev = old(self)@;
                    let next = self@;
                    assert(next == prev.remove(i as int));
                    assert(prev[i as int] == x);
                    assert forall|a: int, b: int|
                        0 <= a < next.len() && 0 <= b < next.len() && a != b implies next[a]
                        != next[b] by {
                        let a0 = if a < i {
                            a
                        } else {
                            a + 1
                        };
                        let b0 = if b < i {
                            b
                        } else {
                            b + 1
                        };
                        assert(next[a] == prev[a0] && next[b] == prev[b0]);
                    }
                    assert forall|y: usize| next.contains(y) == (prev.contains(y) && y != x) by {
                        if next.contains(y) {
                            let a = choose|a: int| 0 <= a < next.len() && next[a] == y;
                            let a0 = if a < i {
                                a
                            } else {
                                a + 1
                            };
                            assert(prev[a0] == y);
                            assert(prev[a0] != prev[i as int]);
                        }
                        if prev.contains(y) && y != x {
                            let a = choose|a: int| 0 <= a < prev.len() && prev[a] == y;
                            if a < i {
                                assert(next[a] == y);
                            } else {
                                assert(next[a - 1] == y);
                            }
                        }
                    }
                    assert forall|base: Seq<usize>| prev == base.push(x) implies next == base by {
                        assert(base.push(x)[base.len() as int] == x);
                        assert(prev[prev.len() - 1] == x);
                        if i < prev.len() - 1 {
                            assert(prev[i as int] != prev[prev.len() - 1]);
                        }
                        assert(next =~= base);
                    }
                }
                return true;
            }
            i = i + 1;
        }
        proof {
            assert forall|base: Seq<usize>| old(self)@ == base.push(x) implies self@ == base by {
                assert(base.push(x)[base.len() as int] == x);
            }
        }
        false
    }
}

} // verus!
