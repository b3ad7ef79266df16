//! The graph loader: a node for an identity, made at most once.

use crate::graph::{holds_id, index_of_id, lemma_index_of_id, Graph};
use crate::node::Node;
use crate::text::{clean, clean_path};
use vstd::prelude::*;

verus! {

/// The record of a topic could not be read.
pub struct RecordLoadError {
    /// Identity of the topic.
    pub id: String,
}

/// `got` is `made` as the registry takes it in: under the identity `id`,
/// linked to nothing.
pub open spec fn adopted<T>(made: Node<T>, id: Seq<char>, got: Node<T>) -> bool {
    &&& got.path@ == id
    &&& got.after@ == made.after@
    &&& got.before@ == made.before@
    &&& got.cost == made.cost
    &&& got.deadline == made.deadline
    &&& got.data == made.data
    &&& got.sorted == made.sorted
    &&& got.dag_cost == made.dag_cost
    &&& got.times_visited == made.times_visited
    &&& got.is_detached()
}

/// `new` is `old` with one node more, which is linked to nothing.
pub open spec fn with_node<T>(old: Seq<Node<T>>, new: Seq<Node<T>>) -> bool {
    &&& new.len() == old.len() + 1
    &&& forall|j: int| 0 <= j < old.len() ==> #[trigger] new[j] == old[j]
    &&& new[old.len() as int].is_detached()
}

/// What loading the identity `id` does: `r` is the index of the node with
/// that identity. If `old` holds it, nothing is read and `new` is `old`.
/// If not, `new` is `old` with one node more, made by `create` from what
/// `read` handed out for `id`; or, where `read` hands out nothing, `new`
/// is `old` and `r` names `id` as what could not be read.
pub open spec fn loaded<T, U, R: Fn(&String) -> Option<U>, C: Fn(&String, U) -> Node<T>>(
    old: Seq<Node<T>>,
    new: Seq<Node<T>>,
    id: Seq<char>,
    r: Result<usize, RecordLoadError>,
    read: R,
    create: C,
) -> bool {
    match r {
        Ok(i) => {
            &&& i < new.len()
            &&& new[i as int].path@ == id
            &&& i == index_of_id(new, id)
            &&& if holds_id(old, id) {
                new == old
            } else {
                &&& i == old.len()
                &&& with_node(old, new)
                &&& exists|s: String, u: U, made: Node<T>|
                    s@ == id && call_ensures(read, (&s,), Some(u)) && call_ensures(
                        create,
                        (&s, u),
                        made,
                    ) && adopted(made, s@, new[i as int])
            }
        },
        Err(e) => {
            &&& e.id@ == id
            &&& !holds_id(old, id)
            &&& new == old
            &&& exists|s: String| s@ == id && call_ensures(read, (&s,), None::<U>)
        },
    }
}

/// Loading is idempotent: once a path has been loaded, loading any path
/// that stands for the same identity hands out the same node and leaves
/// the registry as it is, whatever could be read then.
pub proof fn lemma_load_again<T, U, R, C, V, R2, C2>(
    g0: Seq<Node<T>>,
    g1: Seq<Node<T>>,
    g2: Seq<Node<T>>,
    first: Seq<char>,
    second: Seq<char>,
    i: usize,
    r2: Result<usize, RecordLoadError>,
    read: R,
    create: C,
    read_again: R2,
    create_again: C2,
) where
    R: Fn(&String) -> Option<U>,
    C: Fn(&String, U) -> Node<T>,
    R2: Fn(&String) -> Option<V>,
    C2: Fn(&String, V) -> Node<T>,

    requires
        loaded(g0, g1, clean_path(first), Ok(i), read, create),
        clean_path(second) == clean_path(first),
        loaded(g1, g2, clean_path(second), r2, read_again, create_again),
    ensures
        r2 == Ok::<usize, RecordLoadError>(i),
        g2 == g1,
{
    let id = clean_path(first);
    assert(g1[i as int].path@ == id);
    assert(holds_id(g1, id));
}

/// The node for `path`: the one that the registry holds under the identity
/// that `path` stands for, or else a new one, made by `create_node` from
/// what `read_from_file` hands out for that identity. A node that is
/// there is not read again.
pub fn load_node<T, U, R, C>(
    nodes: &mut Graph<T>,
    path: &String,
    read_from_file: &R,
    create_node: &C,
) -> (r: Result<usize, RecordLoadError>) where
    R: Fn(&String) -> Option<U>,
    C: Fn(&String, U) -> Node<T>,

    requires
        old(nodes).wf(),
        forall|s: &String| call_requires(*read_from_file, (s,)),
        forall|s: &String, u: U| call_requires(*create_node, (s, u)),
    ensures
        final(nodes).wf(),
        loaded(old(nodes)@, final(nodes)@, clean_path(path@), r, *read_from_file, *create_node),
{
    let id = clean(path);
    match nodes.find(&id) {
        Some(i) => {
            proof {
                lemma_index_of_id(nodes@, i as int);
            }
            Ok(i)
        },
        None => {
            let record = read_from_file(&id);
            match record {
                None => {
                    proof {
                        assert(id@ == clean_path(path@) && call_ensures(
                            *read_from_file,
                            (&id,),
                            None::<U>,
                        ));
                    }
                    Err(RecordLoadError { id })
                },
                Some(u) => {
                    let made = create_node(&id, u);
                    let ghost key = id;
                    let mut node = made;
                    node.path = id;
                    let i = nodes.insert(node);
                    proof {
                        lemma_index_of_id(nodes@, i as int);
                        assert(key@ == clean_path(path@) && call_ensures(
                            *read_from_file,
                            (&key,),
                            Some(u),
                        ) && call_ensures(*create_node, (&key, u), made) && adopted(
                            made,
                            key@,
                            nodes@[i as int],
                        ));
                    }
                    Ok(i)
                },
            }
        },
    }
}

} // verus!
