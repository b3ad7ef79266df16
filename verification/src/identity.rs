//! When two nodes are the same node.

use crate::node::Node;
use vstd::prelude::*;
use vstd::std_specs::cmp::PartialEqSpecImpl;

verus! {

/// Two nodes are equal if and only if they have the same identity.
impl<T> PartialEq for Node<T> {
    fn eq(&self, other: &Node<T>) -> (r: bool) {
        self.path == other.path
    }
}

impl<T> PartialEqSpecImpl for Node<T> {
    open spec fn obeys_eq_spec() -> bool {
        true
    }

    open spec fn eq_spec(&self, other: &Node<T>) -> bool {
        self.path@ == other.path@
    }
}

} // verus!
