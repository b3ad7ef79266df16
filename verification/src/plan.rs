//! What a build makes of a registry, as a function of what the registry
//! holds and of what can be read: the passes of the builder on plain
//! values.

use crate::branch::{free, lemma_free_after_insert};
use crate::builder::{built, kept_at};
use crate::dag::dag_pass;
use crate::graph::{
    holds_id, ids_unique, index_of_id, lemma_index_of_id, well_formed, with_edge,
};
use crate::sequencer::lemma_counter_below_len;
use crate::loader::{adopted, loaded, RecordLoadError};
use crate::node::Node;
use crate::graph::edges_of;
use crate::text::{clean_path, lemma_text_less_total, paths_of, text_less};
use vstd::prelude::*;

verus! {

/// What the builder reads of a node and what it writes: identity, what
/// the node declares, its predecessors, and how many nodes hold it.
#[verifier::ext_equal]
pub struct Entry {
    pub id: Seq<char>,
    pub after: Seq<Seq<char>>,
    pub before: Seq<Seq<char>>,
    pub preds: Seq<usize>,
    pub fan: nat,
}

/// The entries of all nodes, by index.
pub open spec fn entries_of<T>(nodes: Seq<Node<T>>) -> Seq<Entry> {
    Seq::new(
        nodes.len(),
        |i: int|
            Entry {
                id: nodes[i].path@,
                after: paths_of(nodes[i].after@),
                before: paths_of(nodes[i].before@),
                preds: nodes[i].predecessors@,
                fan: nodes[i].num_successors as nat,
            },
    )
}

/// Whether `read` can hand out `r` for the identity `id`.
pub open spec fn can_tell<U, R: Fn(&String) -> Option<U>>(
    read: R,
    id: Seq<char>,
    r: Option<U>,
) -> bool {
    exists|s: String| s@ == id && #[trigger] call_ensures(read, (&s,), r)
}

/// What `read` hands out for the identity `id`.
pub open spec fn told<U, R: Fn(&String) -> Option<U>>(read: R, id: Seq<char>) -> Option<U> {
    choose|r: Option<U>| can_tell(read, id, r)
}

/// The node that `create` makes for the identity `id` from `u`.
pub open spec fn made_by<T, U, C: Fn(&String, U) -> Node<T>>(
    create: C,
    id: Seq<char>,
    u: U,
) -> Node<T> {
    choose|made: Node<T>| can_make(create, id, u, made)
}

/// Whether `create` can make `made` for the identity `id` from `u`.
pub open spec fn can_make<T, U, C: Fn(&String, U) -> Node<T>>(
    create: C,
    id: Seq<char>,
    u: U,
    made: Node<T>,
) -> bool {
    exists|s: String| s@ == id && #[trigger] call_ensures(create, (&s, u), made)
}

/// Whether reading and making are functions of the identity: the same
/// identity is told the same, and what is made from it declares the same.
pub open spec fn steady<T, U, R: Fn(&String) -> Option<U>, C: Fn(&String, U) -> Node<T>>(
    read: R,
    create: C,
) -> bool {
    &&& forall|s1: String, s2: String, r1: Option<U>, r2: Option<U>|
        s1@ == s2@ && #[trigger] call_ensures(read, (&s1,), r1) && #[trigger] call_ensures(
            read,
            (&s2,),
            r2,
        ) ==> r1 == r2
    &&& forall|s1: String, s2: String, u: U, m1: Node<T>, m2: Node<T>|
        s1@ == s2@ && #[trigger] call_ensures(create, (&s1, u), m1) && #[trigger] call_ensures(
            create,
            (&s2, u),
            m2,
        ) ==> paths_of(m1.after@) == paths_of(m2.after@) && paths_of(m1.before@) == paths_of(
            m2.before@,
        )
}

/// The entry of a node that is new to the registry, if its record can be
/// read.
pub open spec fn fresh_entry<T, U, R: Fn(&String) -> Option<U>, C: Fn(&String, U) -> Node<T>>(
    read: R,
    create: C,
    id: Seq<char>,
) -> Option<Entry> {
    match told(read, id) {
        Some(u) => Some(
            Entry {
                id,
                after: paths_of(made_by(create, id, u).after@),
                before: paths_of(made_by(create, id, u).before@),
                preds: Seq::<usize>::empty(),
                fan: 0,
            },
        ),
        None => None,
    }
}

/// The index of the entry with identity `id`, if there is one.
pub open spec fn found(g: Seq<Entry>, id: Seq<char>) -> Option<int> {
    if exists|i: int| 0 <= i < g.len() && (#[trigger] g[i]).id == id {
        Some(choose|i: int| 0 <= i < g.len() && (#[trigger] g[i]).id == id)
    } else {
        None
    }
}

/// The registry after the node for `path` has been asked for, and the
/// index of that node; nothing if its record cannot be read.
pub open spec fn taken_in<T, U, R: Fn(&String) -> Option<U>, C: Fn(&String, U) -> Node<T>>(
    read: R,
    create: C,
    g: Seq<Entry>,
    path: Seq<char>,
) -> Option<(Seq<Entry>, int)> {
    match found(g, clean_path(path)) {
        Some(i) => Some((g, i)),
        None => match fresh_entry(read, create, clean_path(path)) {
            Some(e) => if g.len() < usize::MAX {
                Some((g.push(e), g.len() as int))
            } else {
                None
            },
            None => None,
        },
    }
}

/// The nodes of `list` stand in the order of their identities, rising
/// strictly.
pub open spec fn rises(g: Seq<Entry>, list: Seq<usize>) -> bool {
    forall|i: int, j: int|
        0 <= i < j < list.len() ==> text_less(
            g[(#[trigger] list[i]) as int].id,
            g[(#[trigger] list[j]) as int].id,
        )
}

/// Whether `l` holds the nodes of `list` and `y`, in the order of their
/// identities.
pub open spec fn places(g: Seq<Entry>, list: Seq<usize>, y: usize, l: Seq<usize>) -> bool {
    rises(g, l) && forall|v: usize| l.contains(v) <==> list.contains(v) || v == y
}

/// The nodes of `list` and `y` in the order of their identities.
pub open spec fn placed(g: Seq<Entry>, list: Seq<usize>, y: usize) -> Seq<usize> {
    choose|l: Seq<usize>| places(g, list, y, l)
}

/// The registry with the edge from `x` to `y` added: the predecessors of
/// `x` are the old ones and `y`, in the order of their identities, and
/// `y` is counted once more if it is new to them. Where the two are one
/// node, nothing changes.
pub open spec fn linked(g: Seq<Entry>, x: int, y: int) -> Seq<Entry> {
    if x != y {
        let listed = g.update(x, Entry { preds: placed(g, g[x].preds, y as usize), ..g[x] });
        listed.update(
            y,
            Entry {
                fan: listed[y].fan + if g[x].preds.contains(y as usize) {
                    0nat
                } else {
                    1nat
                },
                ..listed[y]
            },
        )
    } else {
        g
    }
}

/// Two lists that hold the same nodes in the order of their identities
/// are one list.
pub proof fn lemma_rising_unique(g: Seq<Entry>, a: Seq<usize>, b: Seq<usize>)
    requires
        rises(g, a),
        rises(g, b),
        forall|v: usize| a.contains(v) <==> b.contains(v),
    ensures
        a == b,
    decreases a.len(),
{
    if a.len() == 0 {
        if b.len() > 0 {
            assert(b.contains(b[0]));
        }
        assert(a =~= b);
    } else {
        assert(a.contains(a[0]));
        assert(b.contains(a[0]));
        let j = choose|j: int| 0 <= j < b.len() && b[j] == a[0];
        assert(b.contains(b[0]));
        assert(a.contains(b[0]));
        let i = choose|i: int| 0 <= i < a.len() && a[i] == b[0];
        lemma_text_less_total(g[a[0] as int].id, g[b[0] as int].id);
        if j > 0 {
            assert(text_less(g[b[0] as int].id, g[b[j] as int].id));
            if i > 0 {
                assert(text_less(g[a[0] as int].id, g[a[i] as int].id));
            }
        }
        assert(a[0] == b[0]);
        let ta = a.skip(1);
        let tb = b.skip(1);
        assert forall|v: usize| ta.contains(v) <==> tb.contains(v) by {
            lemma_text_less_total(g[a[0] as int].id, g[a[0] as int].id);
            if ta.contains(v) {
                let m = choose|m: int| 0 <= m < ta.len() && ta[m] == v;
                assert(a[m + 1] == v);
                assert(text_less(g[a[0] as int].id, g[a[m + 1] as int].id));
                assert(a.contains(v));
                let q = choose|q: int| 0 <= q < b.len() && b[q] == v;
                assert(q > 0);
                assert(tb[q - 1] == v);
            }
            if tb.contains(v) {
                let m = choose|m: int| 0 <= m < tb.len() && tb[m] == v;
                assert(b[m + 1] == v);
                assert(text_less(g[b[0] as int].id, g[b[m + 1] as int].id));
                assert(b.contains(v));
                let q = choose|q: int| 0 <= q < a.len() && a[q] == v;
                assert(q > 0);
                assert(ta[q - 1] == v);
            }
        }
        assert forall|p: int, q: int| 0 <= p < q < ta.len() implies text_less(
            g[(#[trigger] ta[p]) as int].id,
            g[(#[trigger] ta[q]) as int].id,
        ) by {
            assert(ta[p] == a[p + 1] && ta[q] == a[q + 1]);
        }
        assert forall|p: int, q: int| 0 <= p < q < tb.len() implies text_less(
            g[(#[trigger] tb[p]) as int].id,
            g[(#[trigger] tb[q]) as int].id,
        ) by {
            assert(tb[p] == b[p + 1] && tb[q] == b[q + 1]);
        }
        lemma_rising_unique(g, ta, tb);
        assert(a =~= seq![a[0]] + ta);
        assert(b =~= seq![b[0]] + tb);
    }
}

/// `b` holds the nodes of `a` with what they declare, and perhaps more.
pub open spec fn grown_from(a: Seq<Entry>, b: Seq<Entry>) -> bool {
    &&& a.len() <= b.len() <= usize::MAX
    &&& forall|i: int|
        0 <= i < a.len() ==> (#[trigger] b[i]).id == a[i].id && b[i].after == a[i].after
            && b[i].before == a[i].before
}

/// `b`, which a pass has made of `a`.
pub open spec fn kept(a: Seq<Entry>, b: Seq<Entry>) -> Seq<Entry> {
    if grown_from(a, b) {
        b
    } else {
        a
    }
}

/// Whether a topic is skipped: it is known and is the node `cur` itself
/// or on the path.
pub open spec fn on_path(known: Option<int>, cur: int, branch: Seq<usize>) -> bool {
    match known {
        Some(p) => p == cur || branch.contains(p as usize),
        None => false,
    }
}

/// The depth that is left after one more step, where depth is counted.
pub open spec fn deeper(depth: i64) -> i64 {
    if depth > 0 {
        (depth - 1) as i64
    } else {
        depth
    }
}

/// What asking for a node does to the size of the registry.
pub proof fn lemma_taken_in<T, U, R: Fn(&String) -> Option<U>, C: Fn(&String, U) -> Node<T>>(
    read: R,
    create: C,
    g: Seq<Entry>,
    path: Seq<char>,
)
    requires
        g.len() <= usize::MAX,
        taken_in(read, create, g, path) is Some,
    ensures
        ({
            let got = taken_in(read, create, g, path)->0;
            &&& grown_from(g, got.0)
            &&& 0 <= got.1 < got.0.len()
            &&& got.0.len() == g.len() ==> got.0 == g && found(g, clean_path(path)) == Some(got.1)
            &&& got.0.len() != g.len() ==> got.0.len() == g.len() + 1 && got.1 == g.len()
        }),
{
}

/// Adding an edge leaves the size of the registry and what its nodes
/// declare.
pub proof fn lemma_linked(g: Seq<Entry>, x: int, y: int)
    requires
        g.len() <= usize::MAX,
        0 <= x < g.len(),
        0 <= y < g.len(),
    ensures
        linked(g, x, y).len() == g.len(),
        grown_from(g, linked(g, x, y)),
{
}

/// Growth carries over.
pub proof fn lemma_grown_trans(a: Seq<Entry>, b: Seq<Entry>, c: Seq<Entry>)
    requires
        grown_from(a, b),
        grown_from(b, c),
    ensures
        grown_from(a, c),
{
    assert forall|i: int| 0 <= i < a.len() implies (#[trigger] c[i]).id == a[i].id && c[i].after
        == a[i].after && c[i].before == a[i].before by {
        assert(b[i].id == a[i].id);
    }
}

/// The backward pass from the `k`-th topic that `cur` comes after: a
/// topic on the path is skipped; any other is asked for, made a
/// predecessor of `cur`, put on the path and gone into with the forward
/// pass. Nothing comes of it if a record cannot be read.
pub open spec fn after_pass<T, U, R: Fn(&String) -> Option<U>, C: Fn(&String, U) -> Node<T>>(
    read: R,
    create: C,
    g: Seq<Entry>,
    pbranch: Seq<usize>,
    sbranch: Seq<usize>,
    cur: int,
    depth: i64,
    k: int,
) -> Option<Seq<Entry>>
    decreases
            usize::MAX - g.len(),
            free(pbranch, g.len() as int) + free(sbranch, g.len() as int),
            0nat,
            g[cur].after.len() - k,
    when g.len() <= usize::MAX && 0 <= cur < g.len() && 0 <= k
    via after_pass_decreases::<T, U, R, C>
{
    if k >= g[cur].after.len() {
        Some(g)
    } else if on_path(found(g, clean_path(g[cur].after[k])), cur, pbranch) {
        after_pass(read, create, g, pbranch, sbranch, cur, depth, k + 1)
    } else {
        match taken_in(read, create, g, g[cur].after[k]) {
            Some(got) => {
                let linked_up = linked(got.0, cur, got.1);
                match before_pass(
                    read,
                    create,
                    linked_up,
                    pbranch.push(got.1 as usize),
                    sbranch,
                    got.1,
                    deeper(depth),
                    0,
                ) {
                    Some(below) => after_pass(
                        read,
                        create,
                        kept(linked_up, below),
                        pbranch,
                        sbranch,
                        cur,
                        depth,
                        k + 1,
                    ),
                    None => None,
                }
            },
            None => None,
        }
    }
}

/// The forward pass from the `k`-th topic that `cur` comes before, and
/// then the backward pass from `cur`. While `depth` is not zero, a topic
/// on the path is skipped; any other is asked for, made a predecessor of
/// the root, given `cur` as a predecessor, put on the path and gone into
/// with the forward pass.
pub open spec fn before_pass<T, U, R: Fn(&String) -> Option<U>, C: Fn(&String, U) -> Node<T>>(
    read: R,
    create: C,
    g: Seq<Entry>,
    pbranch: Seq<usize>,
    sbranch: Seq<usize>,
    cur: int,
    depth: i64,
    k: int,
) -> Option<Seq<Entry>>
    decreases
            usize::MAX - g.len(),
            free(pbranch, g.len() as int) + free(sbranch, g.len() as int),
            1nat,
            g[cur].before.len() - k,
    when g.len() <= usize::MAX && 0 <= cur < g.len() && 0 <= k
    via before_pass_decreases::<T, U, R, C>
{
    if depth == 0 || k >= g[cur].before.len() {
        after_pass(read, create, g, pbranch, sbranch, cur, depth, 0)
    } else if on_path(found(g, clean_path(g[cur].before[k])), cur, sbranch) {
        before_pass(read, create, g, pbranch, sbranch, cur, depth, k + 1)
    } else {
        match taken_in(read, create, g, g[cur].before[k]) {
            Some(got) => {
                let linked_up = linked(linked(got.0, 0, got.1), got.1, cur);
                match before_pass(
                    read,
                    create,
                    linked_up,
                    pbranch,
                    sbranch.push(got.1 as usize),
                    got.1,
                    deeper(depth),
                    0,
                ) {
                    Some(below) => before_pass(
                        read,
                        create,
                        kept(linked_up, below),
                        pbranch,
                        sbranch,
                        cur,
                        depth,
                        k + 1,
                    ),
                    None => None,
                }
            },
            None => None,
        }
    }
}

#[via_fn]
proof fn after_pass_decreases<T, U, R: Fn(&String) -> Option<U>, C: Fn(&String, U) -> Node<T>>(
    read: R,
    create: C,
    g: Seq<Entry>,
    pbranch: Seq<usize>,
    sbranch: Seq<usize>,
    cur: int,
    depth: i64,
    k: int,
) {
    if k < g[cur].after.len() && !on_path(found(g, clean_path(g[cur].after[k])), cur, pbranch) {
        if taken_in(read, create, g, g[cur].after[k]) is Some {
            let got = taken_in(read, create, g, g[cur].after[k])->0;
            let linked_up = linked(got.0, cur, got.1);
            lemma_taken_in(read, create, g, g[cur].after[k]);
            lemma_linked(got.0, cur, got.1);
            lemma_grown_trans(g, got.0, linked_up);
            if linked_up.len() == g.len() {
                lemma_free_after_insert(pbranch, got.1 as usize, g.len() as int);
            }
            assert forall|x: Seq<Entry>|
                (#[trigger] kept(linked_up, x)).len() >= g.len() && kept(linked_up, x).len()
                    <= usize::MAX && kept(linked_up, x)[cur].after == g[cur].after by {
                if grown_from(linked_up, x) {
                    lemma_grown_trans(g, linked_up, x);
                }
            }
        }
    }
}

#[via_fn]
proof fn before_pass_decreases<T, U, R: Fn(&String) -> Option<U>, C: Fn(&String, U) -> Node<T>>(
    read: R,
    create: C,
    g: Seq<Entry>,
    pbranch: Seq<usize>,
    sbranch: Seq<usize>,
    cur: int,
    depth: i64,
    k: int,
) {
    if depth != 0 && k < g[cur].before.len() && !on_path(
        found(g, clean_path(g[cur].before[k])),
        cur,
        sbranch,
    ) {
        if taken_in(read, create, g, g[cur].before[k]) is Some {
            let got = taken_in(read, create, g, g[cur].before[k])->0;
            let hung = linked(got.0, 0, got.1);
            let linked_up = linked(hung, got.1, cur);
            lemma_taken_in(read, create, g, g[cur].before[k]);
            lemma_linked(got.0, 0, got.1);
            lemma_linked(hung, got.1, cur);
            lemma_grown_trans(g, got.0, hung);
            lemma_grown_trans(g, hung, linked_up);
            if linked_up.len() == g.len() {
                lemma_free_after_insert(sbranch, got.1 as usize, g.len() as int);
            }
            assert forall|x: Seq<Entry>|
                (#[trigger] kept(linked_up, x)).len() >= g.len() && kept(linked_up, x).len()
                    <= usize::MAX && kept(linked_up, x)[cur].before == g[cur].before by {
                if grown_from(linked_up, x) {
                    lemma_grown_trans(g, linked_up, x);
                }
            }
        }
    }
}

/// What a build from `root` makes of the entries `g`, with nothing on
/// the path in either direction; nothing if a record cannot be read.
pub open spec fn planned<T, U, R: Fn(&String) -> Option<U>, C: Fn(&String, U) -> Node<T>>(
    read: R,
    create: C,
    g: Seq<Entry>,
    root: usize,
    sdepth: i64,
) -> Option<Seq<Entry>> {
    dag_pass(read, create, g, Seq::<usize>::empty(), Seq::<usize>::empty(), root as int, sdepth, 0, 0)
}

/// The entries of a registry whose edges have been forgotten and whose
/// root comes after `targets` and nothing else.
pub open spec fn blank_entries<T>(
    nodes: Seq<Node<T>>,
    root: usize,
    targets: Seq<Seq<char>>,
) -> Seq<Entry> {
    Seq::new(
        nodes.len(),
        |i: int|
            Entry {
                id: nodes[i].path@,
                after: if i == root {
                    targets
                } else {
                    paths_of(nodes[i].after@)
                },
                before: paths_of(nodes[i].before@),
                preds: Seq::<usize>::empty(),
                fan: 0,
            },
    )
}

/// A node is found among the entries where it is found in the registry.
pub proof fn lemma_found<T>(nodes: Seq<Node<T>>, id: Seq<char>)
    requires
        ids_unique(nodes),
    ensures
        found(entries_of(nodes), id) == if holds_id(nodes, id) {
            Some(index_of_id(nodes, id))
        } else {
            None
        },
{
    let g = entries_of(nodes);
    if holds_id(nodes, id) {
        let i = index_of_id(nodes, id);
        assert(g[i].id == id);
        let j = choose|j: int| 0 <= j < g.len() && (#[trigger] g[j]).id == id;
        assert(nodes[j].path@ == id);
        lemma_index_of_id(nodes, j);
    } else {
        if exists|j: int| 0 <= j < g.len() && (#[trigger] g[j]).id == id {
            let j = choose|j: int| 0 <= j < g.len() && (#[trigger] g[j]).id == id;
            assert(nodes[j].path@ == id);
        }
    }
}

/// Where reading and making are functions of the identity, loading does
/// to the entries what [`taken_in`] says.
pub proof fn lemma_loaded_is_taken_in<T, U, R: Fn(&String) -> Option<U>, C: Fn(&String, U) -> Node<T>>(
    old: Seq<Node<T>>,
    new: Seq<Node<T>>,
    path: Seq<char>,
    r: Result<usize, RecordLoadError>,
    read: R,
    create: C,
)
    requires
        ids_unique(old),
        new.len() <= usize::MAX,
        loaded(old, new, clean_path(path), r, read, create),
        steady(read, create),
    ensures
        match r {
            Ok(i) => taken_in(read, create, entries_of(old), path) == Some(
                (entries_of(new), i as int),
            ),
            Err(_) => taken_in(read, create, entries_of(old), path) is None,
        },
{
    let id = clean_path(path);
    let g = entries_of(old);
    lemma_found(old, id);
    match r {
        Ok(i) => {
            if !holds_id(old, id) {
                let (s, u, made) = choose|s: String, u: U, made: Node<T>|
                    s@ == id && call_ensures(read, (&s,), Some(u)) && call_ensures(
                        create,
                        (&s, u),
                        made,
                    ) && adopted(made, s@, new[i as int]);
                assert(can_tell(read, id, Some(u)));
                let chosen = told(read, id);
                assert(can_tell(read, id, chosen));
                let s2 = choose|s2: String| s2@ == id && #[trigger] call_ensures(read, (&s2,), chosen);
                assert(chosen == Some(u));
                assert(can_make(create, id, u, made));
                let other = made_by(create, id, u);
                assert(can_make(create, id, u, other));
                let s3 = choose|s3: String|
                    s3@ == id && #[trigger] call_ensures(create, (&s3, u), other);
                assert(paths_of(other.after@) == paths_of(made.after@));
                assert(paths_of(other.before@) == paths_of(made.before@));
                let e = fresh_entry(read, create, id)->0;
                assert(new[i as int].predecessors@ =~= Seq::<usize>::empty());
                assert(entries_of(new) =~~= g.push(e));
            }
        },
        Err(e) => {
            let s = choose|s: String| s@ == id && call_ensures(read, (&s,), None::<U>);
            assert(can_tell(read, id, None::<U>));
            let chosen = told(read, id);
            assert(can_tell(read, id, chosen));
            let s2 = choose|s2: String| s2@ == id && #[trigger] call_ensures(read, (&s2,), chosen);
            assert(chosen == None::<U>);
        },
    }
}

/// Adding an edge does to the entries what [`linked`] says.
pub proof fn lemma_with_edge_is_linked<T>(old: Seq<Node<T>>, new: Seq<Node<T>>, x: int, y: int)
    requires
        well_formed(old),
        0 <= x < old.len(),
        0 <= y < old.len(),
        with_edge(old, new, x, y),
    ensures
        entries_of(new) == linked(entries_of(old), x, y),
        x != y ==> places(
            entries_of(old),
            entries_of(old)[x].preds,
            y as usize,
            placed(entries_of(old), entries_of(old)[x].preds, y as usize),
        ),
{
    let g = entries_of(old);
    let h = entries_of(new);
    let want = linked(g, x, y);
    if x != y {
        let list = new[x].predecessors@;
        assert(edges_of(old)[x] == old[x].predecessors@);
        assert forall|i: int, j: int| 0 <= i < j < list.len() implies text_less(
            g[(#[trigger] list[i]) as int].id,
            g[(#[trigger] list[j]) as int].id,
        ) by {
            assert(list.contains(list[i]) && list.contains(list[j]));
            assert forall|v: usize| list.contains(v) implies v < old.len() by {
                if old[x].predecessors@.contains(v) {
                    let m = choose|m: int|
                        0 <= m < old[x].predecessors@.len() && old[x].predecessors@[m] == v;
                    assert(edges_of(old)[x][m] < old.len());
                }
            }
            assert(text_less(old[list[i] as int].path@, old[list[j] as int].path@));
        }
        assert(places(g, g[x].preds, y as usize, list));
        let chosen = placed(g, g[x].preds, y as usize);
        assert(places(g, g[x].preds, y as usize, chosen));
        lemma_rising_unique(g, list, chosen);
        lemma_counter_below_len(old, y as usize);
        assert forall|j: int| 0 <= j < old.len() implies #[trigger] h[j] =~~= want[j] by {
            if j != x && j != y {
                assert(new[j] == old[j]);
            }
        }
    }
    assert(h =~~= want);
}

/// What is built from a registry has grown from it.
pub proof fn lemma_built_is_grown<T>(a: Seq<Node<T>>, b: Seq<Node<T>>)
    requires
        built(a, b),
        b.len() <= usize::MAX,
    ensures
        grown_from(entries_of(a), entries_of(b)),
{
    assert forall|i: int| 0 <= i < a.len() implies (#[trigger] entries_of(b)[i]).id == entries_of(
        a,
    )[i].id && entries_of(b)[i].after == entries_of(a)[i].after && entries_of(b)[i].before
        == entries_of(a)[i].before by {
        assert(kept_at(a, b, i));
    }
}

/// What the backward pass does with the `k`-th topic.
pub proof fn lemma_after_pass_step<T, U, R: Fn(&String) -> Option<U>, C: Fn(&String, U) -> Node<T>>(
    read: R,
    create: C,
    g: Seq<Entry>,
    pbranch: Seq<usize>,
    sbranch: Seq<usize>,
    cur: int,
    depth: i64,
    k: int,
)
    requires
        g.len() <= usize::MAX,
        0 <= cur < g.len(),
        0 <= k,
    ensures
        after_pass(read, create, g, pbranch, sbranch, cur, depth, k) == if k >= g[cur].after.len() {
            Some(g)
        } else if on_path(found(g, clean_path(g[cur].after[k])), cur, pbranch) {
            after_pass(read, create, g, pbranch, sbranch, cur, depth, k + 1)
        } else {
            match taken_in(read, create, g, g[cur].after[k]) {
                Some(got) => match before_pass(
                    read,
                    create,
                    linked(got.0, cur, got.1),
                    pbranch.push(got.1 as usize),
                    sbranch,
                    got.1,
                    deeper(depth),
                    0,
                ) {
                    Some(below) => after_pass(
                        read,
                        create,
                        kept(linked(got.0, cur, got.1), below),
                        pbranch,
                        sbranch,
                        cur,
                        depth,
                        k + 1,
                    ),
                    None => None,
                },
                None => None,
            }
        },
{
}

/// What the forward pass does with the `k`-th topic.
pub proof fn lemma_before_pass_step<T, U, R: Fn(&String) -> Option<U>, C: Fn(&String, U) -> Node<T>>(
    read: R,
    create: C,
    g: Seq<Entry>,
    pbranch: Seq<usize>,
    sbranch: Seq<usize>,
    cur: int,
    depth: i64,
    k: int,
)
    requires
        g.len() <= usize::MAX,
        0 <= cur < g.len(),
        0 <= k,
    ensures
        before_pass(read, create, g, pbranch, sbranch, cur, depth, k) == if depth == 0 || k
            >= g[cur].before.len() {
            after_pass(read, create, g, pbranch, sbranch, cur, depth, 0)
        } else if on_path(found(g, clean_path(g[cur].before[k])), cur, sbranch) {
            before_pass(read, create, g, pbranch, sbranch, cur, depth, k + 1)
        } else {
            match taken_in(read, create, g, g[cur].before[k]) {
                Some(got) => match before_pass(
                    read,
                    create,
                    linked(linked(got.0, 0, got.1), got.1, cur),
                    pbranch,
                    sbranch.push(got.1 as usize),
                    got.1,
                    deeper(depth),
                    0,
                ) {
                    Some(below) => before_pass(
                        read,
                        create,
                        kept(linked(linked(got.0, 0, got.1), got.1, cur), below),
                        pbranch,
                        sbranch,
                        cur,
                        depth,
                        k + 1,
                    ),
                    None => None,
                },
                None => None,
            }
        },
{
}

/// `g` with every edge forgotten and with `targets` as what the root
/// comes after.
pub open spec fn blanked_entries(g: Seq<Entry>, root: usize, targets: Seq<Seq<char>>) -> Seq<Entry> {
    Seq::new(
        g.len(),
        |i: int|
            Entry {
                id: g[i].id,
                after: if i == root {
                    targets
                } else {
                    g[i].after
                },
                before: g[i].before,
                preds: Seq::<usize>::empty(),
                fan: 0,
            },
    )
}

/// `a` and `b` hold the same nodes with what they declare, but for what
/// the root comes after.
pub open spec fn alike(a: Seq<Entry>, b: Seq<Entry>, root: usize) -> bool {
    &&& a.len() == b.len()
    &&& forall|j: int|
        0 <= j < a.len() ==> (#[trigger] a[j]).id == b[j].id && a[j].before == b[j].before && (j
            != root ==> a[j].after == b[j].after)
}

/// Registries that are alike are alike when blanked.
pub proof fn lemma_alike_blanked(a: Seq<Entry>, b: Seq<Entry>, root: usize, targets: Seq<Seq<char>>)
    requires
        alike(a, b, root),
    ensures
        blanked_entries(a, root, targets) == blanked_entries(b, root, targets),
{
    assert forall|j: int| 0 <= j < a.len() implies #[trigger] blanked_entries(a, root, targets)[j]
        =~~= blanked_entries(b, root, targets)[j] by {
        assert(a[j].id == b[j].id);
    }
    assert(blanked_entries(a, root, targets) =~~= blanked_entries(b, root, targets));
}

/// Blanking a registry blanks its entries.
pub proof fn lemma_blank_entries<T>(nodes: Seq<Node<T>>, root: usize, targets: Seq<Seq<char>>)
    ensures
        blank_entries(nodes, root, targets) == blanked_entries(entries_of(nodes), root, targets),
{
    assert(blank_entries(nodes, root, targets) =~~= blanked_entries(
        entries_of(nodes),
        root,
        targets,
    ));
}

/// The entries as built by the `k`-th of the passes that a merge makes
/// for the nodes with the identities `ids`, each pass beginning with the
/// edges forgotten and with one of `ids` as all that the root comes
/// after; nothing if a record could not be read in one of these passes.
/// Before the first pass the entries are `g`.
pub open spec fn merge_plan<T, U, R: Fn(&String) -> Option<U>, C: Fn(&String, U) -> Node<T>>(
    read: R,
    create: C,
    g: Seq<Entry>,
    root: usize,
    ids: Seq<Seq<char>>,
    k: int,
) -> Option<Seq<Entry>>
    decreases k,
{
    if k <= 0 {
        Some(g)
    } else {
        match merge_plan(read, create, g, root, ids, k - 1) {
            Some(before) => planned(
                read,
                create,
                blanked_entries(before, root, seq![ids[k - 1]]),
                root,
                0,
            ),
            None => None,
        }
    }
}

/// Whether every record can be read that a merge asks for: in the passes
/// for the nodes with the identities `ids`, and in the last pass, in
/// which the root comes after `outset`.
pub open spec fn merge_succeeds<T, U, R: Fn(&String) -> Option<U>, C: Fn(&String, U) -> Node<T>>(
    read: R,
    create: C,
    g: Seq<Entry>,
    root: usize,
    ids: Seq<Seq<char>>,
    outset: Seq<Seq<char>>,
    sdepth: i64,
) -> bool {
    match merge_plan(read, create, g, root, ids, ids.len() as int) {
        Some(before) => planned(read, create, blanked_entries(before, root, outset), root, sdepth)
            is Some,
        None => false,
    }
}

/// Once a pass has failed, nothing comes of the passes after it.
pub proof fn lemma_merge_plan_fails<T, U, R: Fn(&String) -> Option<U>, C: Fn(&String, U) -> Node<T>>(
    read: R,
    create: C,
    g: Seq<Entry>,
    root: usize,
    ids: Seq<Seq<char>>,
    i: int,
    k: int,
)
    requires
        0 <= i <= k,
        merge_plan(read, create, g, root, ids, i) is None,
    ensures
        merge_plan(read, create, g, root, ids, k) is None,
    decreases k - i,
{
    if i < k {
        lemma_merge_plan_fails(read, create, g, root, ids, i, k - 1);
    }
}

} // verus!
