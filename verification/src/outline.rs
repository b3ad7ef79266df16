//! What a listed document needs besides its order: the commands of its
//! headings, how deep they go, and the sources it cites.

use crate::graph::Graph;
use crate::text::{holds_text, sorted_unique, strictly_rising};
use crate::topic::Topic;
use vstd::prelude::*;

verus! {

/// The command that sets a heading of `level` in a document whose
/// headings go `max_heading_depth` levels deep; empty where the document
/// has no such level.
pub open spec fn heading_command_text(max_heading_depth: usize, level: usize) -> Seq<char> {
    if level == 0 || level > max_heading_depth || level > 6 {
        ""@
    } else if max_heading_depth >= 6 {
        if level == 1 {
            "book"@
        } else if level == 2 {
            "part"@
        } else if level == 3 {
            "chapter"@
        } else if level == 4 {
            "section"@
        } else if level == 5 {
            "subsection"@
        } else {
            "subsubsection"@
        }
    } else if max_heading_depth == 5 {
        if level == 1 {
            "part"@
        } else if level == 2 {
            "chapter"@
        } else if level == 3 {
            "section"@
        } else if level == 4 {
            "subsection"@
        } else {
            "subsubsection"@
        }
    } else if max_heading_depth >= 3 {
        if level == 1 {
            "chapter"@
        } else if level == 2 {
            "section"@
        } else if level == 3 {
            "subsection"@
        } else {
            "subsubsection"@
        }
    } else if level == 1 {
        "section"@
    } else {
        "subsection"@
    }
}

/// The command that sets a heading of `level`.
pub fn heading_command(max_heading_depth: usize, level: usize) -> (r: &'static str)
    ensures
        r@ == heading_command_text(max_heading_depth, level),
{
    if level == 0 || level > max_heading_depth || level > 6 {
        ""
    } else if max_heading_depth >= 6 {
        if level == 1 {
            "book"
        } else if level == 2 {
            "part"
        } else if level == 3 {
            "chapter"
        } else if level == 4 {
            "section"
        } else if level == 5 {
            "subsection"
        } else {
            "subsubsection"
        }
    } else if max_heading_depth == 5 {
        if level == 1 {
            "part"
        } else if level == 2 {
            "chapter"
        } else if level == 3 {
            "section"
        } else if level == 4 {
            "subsection"
        } else {
            "subsubsection"
        }
    } else if max_heading_depth >= 3 {
        if level == 1 {
            "chapter"
        } else if level == 2 {
            "section"
        } else if level == 3 {
            "subsection"
        } else {
            "subsubsection"
        }
    } else if level == 1 {
        "section"
    } else {
        "subsection"
    }
}

/// What the label of a heading of `level` begins with; empty where the
/// document has no such level.
pub open spec fn heading_label_text(max_heading_depth: usize, level: usize) -> Seq<char> {
    if level == 0 || level > max_heading_depth || level > 6 {
        ""@
    } else if max_heading_depth >= 6 {
        if level == 1 {
            "bk"@
        } else if level == 2 {
            "pt"@
        } else if level == 3 {
            "ch"@
        } else if level == 4 {
            "sec"@
        } else if level == 5 {
            "ssec"@
        } else {
            "sssec"@
        }
    } else if max_heading_depth == 5 {
        if level == 1 {
            "pt"@
        } else if level == 2 {
            "ch"@
        } else if level == 3 {
            "sec"@
        } else if level == 4 {
            "ssec"@
        } else {
            "sssec"@
        }
    } else if max_heading_depth >= 3 {
        if level == 1 {
            "ch"@
        } else if level == 2 {
            "sec"@
        } else if level == 3 {
            "ssec"@
        } else {
            "sssec"@
        }
    } else if level == 1 {
        "sec"@
    } else {
        "ssec"@
    }
}

/// What the label of a heading of `level` begins with.
pub fn heading_label_prefix(max_heading_depth: usize, level: usize) -> (r: &'static str)
    ensures
        r@ == heading_label_text(max_heading_depth, level),
{
    if level == 0 || level > max_heading_depth || level > 6 {
        ""
    } else if max_heading_depth >= 6 {
        if level == 1 {
            "bk"
        } else if level == 2 {
            "pt"
        } else if level == 3 {
            "ch"
        } else if level == 4 {
            "sec"
        } else if level == 5 {
            "ssec"
        } else {
            "sssec"
        }
    } else if max_heading_depth == 5 {
        if level == 1 {
            "pt"
        } else if level == 2 {
            "ch"
        } else if level == 3 {
            "sec"
        } else if level == 4 {
            "ssec"
        } else {
            "sssec"
        }
    } else if max_heading_depth >= 3 {
        if level == 1 {
            "ch"
        } else if level == 2 {
            "sec"
        } else if level == 3 {
            "ssec"
        } else {
            "sssec"
        }
    } else if level == 1 {
        "sec"
    } else {
        "ssec"
    }
}

/// `depth`, but six at most.
pub open spec fn level_of(depth: usize) -> usize {
    if depth > 6 {
        6
    } else {
        depth
    }
}

/// How deep the headings of the listed topics go, six levels at most.
pub fn max_heading_depth(nodes: &Graph<Topic>, sorted_nodes: &Vec<usize>) -> (depth: usize)
    requires
        forall|i: int| 0 <= i < sorted_nodes@.len() ==> (#[trigger] sorted_nodes@[i]) < nodes@.len(),
    ensures
        depth <= 6,
        forall|i: int|
            0 <= i < sorted_nodes@.len() ==> level_of(
                nodes@[(#[trigger] sorted_nodes@[i]) as int].data.heading_depth,
            ) <= depth,
        depth == 0 || exists|i: int|
            0 <= i < sorted_nodes@.len() && level_of(
                nodes@[(#[trigger] sorted_nodes@[i]) as int].data.heading_depth,
            ) == depth,
{
    let mut depth: usize = 0;
    let mut k: usize = 0;
    while k < sorted_nodes.len()
        invariant
            k <= sorted_nodes@.len(),
            depth <= 6,
            forall|i: int|
                0 <= i < sorted_nodes@.len() ==> (#[trigger] sorted_nodes@[i]) < nodes@.len(),
            forall|i: int|
                0 <= i < k ==> level_of(
                    nodes@[(#[trigger] sorted_nodes@[i]) as int].data.heading_depth,
                ) <= depth,
            depth == 0 || exists|i: int|
                0 <= i < k && level_of(
                    nodes@[(#[trigger] sorted_nodes@[i]) as int].data.heading_depth,
                ) == depth,
        decreases sorted_nodes@.len() - k,
    {
        let here = nodes.nodes[sorted_nodes[k]].data.heading_depth;
        let level = if here > 6 {
            6
        } else {
            here
        };
        if level > depth {
            depth = level;
        }
        k = k + 1;
    }
    depth
}

/// Whether one of the first `upto` listed topics cites the source `t`.
pub open spec fn cited_by(
    nodes: Seq<crate::node::Node<Topic>>,
    sorted_nodes: Seq<usize>,
    upto: int,
    t: Seq<char>,
) -> bool {
    exists|i: int|
        0 <= i < upto && i < sorted_nodes.len() && holds_text(
            nodes[(#[trigger] sorted_nodes[i]) as int].data.src@,
            t,
        )
}

/// The sources that the listed topics cite, in the order of text, each
/// once.
pub fn collect_references(nodes: &Graph<Topic>, sorted_nodes: &Vec<usize>) -> (out: Vec<String>)
    requires
        forall|i: int| 0 <= i < sorted_nodes@.len() ==> (#[trigger] sorted_nodes@[i]) < nodes@.len(),
    ensures
        strictly_rising(out@),
        forall|t: Seq<char>|
            holds_text(out@, t) <==> cited_by(nodes@, sorted_nodes@, sorted_nodes@.len() as int, t),
{
    let mut all: Vec<String> = Vec::new();
    let mut k: usize = 0;
    while k < sorted_nodes.len()
        invariant
            k <= sorted_nodes@.len(),
            forall|i: int|
                0 <= i < sorted_nodes@.len() ==> (#[trigger] sorted_nodes@[i]) < nodes@.len(),
            forall|t: Seq<char>| holds_text(all@, t) <==> cited_by(nodes@, sorted_nodes@, k as int, t),
        decreases sorted_nodes@.len() - k,
    {
        let v = sorted_nodes[k];
        let ghost before = all@;
        let ghost src = nodes@[v as int].data.src@;
        let count = nodes.nodes[v].data.src.len();
        let mut j: usize = 0;
        while j < count
            invariant
                v < nodes@.len(),
                src == nodes@[v as int].data.src@,
                count == src.len(),
                j <= count,
                forall|t: Seq<char>|
                    holds_text(all@, t) <==> holds_text(before, t) || holds_text(
                        src.take(j as int),
                        t,
                    ),
            decreases count - j,
        {
            let ghost prev = all@;
            all.push(nodes.nodes[v].data.src[j].clone());
            proof {
                let seen = src.take(j as int);
                let grown = src.take(j + 1);
                assert(grown =~= seen.push(src[j as int]));
                assert forall|t: Seq<char>|
                    holds_text(all@, t) <==> holds_text(before, t) || holds_text(grown, t) by {
                    if holds_text(all@, t) {
                        let i = choose|i: int| 0 <= i < all@.len() && (#[trigger] all@[i])@ == t;
                        if i < prev.len() {
                            assert(prev[i]@ == t);
                            assert(holds_text(prev, t));
                            if holds_text(seen, t) {
                                let m = choose|m: int|
                                    0 <= m < seen.len() && (#[trigger] seen[m])@ == t;
                                assert(grown[m]@ == t);
                            }
                        } else {
                            assert(grown[j as int]@ == t);
                        }
                    }
                    if holds_text(before, t) {
                        assert(holds_text(prev, t));
                        let i = choose|i: int| 0 <= i < prev.len() && (#[trigger] prev[i])@ == t;
                        assert(all@[i]@ == t);
                    }
                    if holds_text(grown, t) {
                        let m = choose|m: int| 0 <= m < grown.len() && (#[trigger] grown[m])@ == t;
                        if m < j {
                            assert(seen[m]@ == t);
                            assert(holds_text(prev, t));
                            let i = choose|i: int|
                                0 <= i < prev.len() && (#[trigger] prev[i])@ == t;
                            assert(all@[i]@ == t);
                        } else {
                            assert(all@[prev.len() as int]@ == t);
                        }
                    }
                }
            }
            j = j + 1;
        }
        proof {
            assert(src.take(count as int) =~= src);
            assert forall|t: Seq<char>|
                holds_text(all@, t) <==> cited_by(nodes@, sorted_nodes@, k + 1, t) by {
                if cited_by(nodes@, sorted_nodes@, k + 1, t) {
                    let i = choose|i: int|
                        0 <= i < k + 1 && i < sorted_nodes@.len() && holds_text(
                            nodes@[(#[trigger] sorted_nodes@[i]) as int].data.src@,
                            t,
                        );
                    if i < k {
                        assert(cited_by(nodes@, sorted_nodes@, k as int, t));
                    }
                }
                if holds_text(before, t) {
                    let i = choose|i: int|
                        0 <= i < k && i < sorted_nodes@.len() && holds_text(
                            nodes@[(#[trigger] sorted_nodes@[i]) as int].data.src@,
                            t,
                        );
                    assert(cited_by(nodes@, sorted_nodes@, k + 1, t));
                }
                if holds_text(src, t) {
                    assert(holds_text(nodes@[sorted_nodes@[k as int] as int].data.src@, t));
                }
            }
        }
        k = k + 1;
    }
    sorted_unique(&all)
}

} // verus!
