//! Which nodes a tree shows, and that its rows are those nodes, each once.

use vstd::prelude::*;

use crate::iter::lemma_kid_block;
use crate::model::{
    attached, lemma_on_path_one_kid, lemma_on_path_parent, node_ok, on_path, tree_ok, NodeModel,
};
use crate::projection::{all_rows_below, rows, rows_below, subtree_rows};

verus! {

/// `i` lies below `top`, and the way from `i` up to `top` goes through
/// nodes that stand among the children of their parents and, `top` left
/// out, are expanded.
pub open spec fn shown_below(nodes: Seq<NodeModel>, top: int, i: int) -> bool
    decreases i,
{
    &&& 0 <= nodes[i].parent < i < nodes.len()
    &&& attached(nodes, i)
    &&& nodes[i].parent == top || (nodes[nodes[i].parent].flags.expanded && shown_below(
        nodes,
        top,
        nodes[i].parent,
    ))
}

/// `i` takes a row in the tree under `top`.
///
/// Below a root every node is shown whose ancestors, the root left out, are
/// all expanded. A node that is no root is shown itself, and what lies
/// below it is shown if the node and the ancestors in between are expanded.
pub open spec fn shown(nodes: Seq<NodeModel>, top: int, i: int) -> bool {
    if nodes[top].is_root() {
        shown_below(nodes, top, i)
    } else {
        i == top || (nodes[top].flags.expanded && shown_below(nodes, top, i))
    }
}

/// What is shown below a node comes after the node.
proof fn lemma_shown_below_after(nodes: Seq<NodeModel>, top: int, x: int)
    requires
        shown_below(nodes, top, x),
    ensures
        top < x,
    decreases x,
{
    if nodes[x].parent != top {
        lemma_shown_below_after(nodes, top, nodes[x].parent);
    }
}

/// What is shown below a child of `top` that is expanded is shown below
/// `top`.
proof fn lemma_shown_below_lift(nodes: Seq<NodeModel>, top: int, c: int, x: int)
    requires
        shown_below(nodes, c, x),
        shown_below(nodes, top, c),
        nodes[c].flags.expanded,
    ensures
        shown_below(nodes, top, x),
    decreases x,
{
    if nodes[x].parent != c {
        lemma_shown_below_lift(nodes, top, c, nodes[x].parent);
    }
}

/// The rows of the first children of a node and of what is shown below
/// them are nodes shown below the node, and lie on the way up from none but
/// themselves through one of those children.
proof fn lemma_rows_are_shown(nodes: Seq<NodeModel>, p: int, upto: nat, x: int)
    requires
        tree_ok(nodes),
        0 <= p < nodes.len(),
        upto <= nodes[p].kids.len(),
        rows_below(nodes, p, upto).contains(x),
    ensures
        shown_below(nodes, p, x),
        exists|j: int| 0 <= j < upto && on_path(nodes, x, (#[trigger] nodes[p].kids[j]).1 as int),
    decreases nodes.len() - p, upto,
{
    assert(node_ok(nodes, p));
    let c = nodes[p].kids[upto - 1].1 as int;
    assert(node_ok(nodes, c));
    let front = rows_below(nodes, p, (upto - 1) as nat);
    assert(rows_below(nodes, p, upto) == front + subtree_rows(nodes, c));
    if front.contains(x) {
        lemma_rows_are_shown(nodes, p, (upto - 1) as nat, x);
        let j = choose|j: int|
            0 <= j < upto - 1 && on_path(nodes, x, (#[trigger] nodes[p].kids[j]).1 as int);
    } else {
        if x != c {
            lemma_rows_are_shown(nodes, c, nodes[c].kids.len(), x);
            lemma_shown_below_lift(nodes, p, c, x);
            let j = choose|j: int|
                0 <= j < nodes[c].kids.len() && on_path(
                    nodes,
                    x,
                    (#[trigger] nodes[c].kids[j]).1 as int,
                );
            lemma_on_path_parent(nodes, x, nodes[c].kids[j].1 as int);
        }
    }
}

/// A node shown below `p`, and what is shown of the tree under it, are
/// among the rows below `p`.
proof fn lemma_shown_are_rows(nodes: Seq<NodeModel>, p: int, x: int, y: int)
    requires
        tree_ok(nodes),
        0 <= p < nodes.len(),
        shown_below(nodes, p, x),
        subtree_rows(nodes, x).contains(y),
    ensures
        all_rows_below(nodes, p).contains(y),
    decreases x,
{
    let parent = nodes[x].parent;
    assert(node_ok(nodes, x));
    let j = choose|j: int| 0 <= j < nodes[parent].kids.len() && (#[trigger] nodes[parent].kids[j]).1
        == x;
    lemma_kid_block(nodes, parent, j);
    let k = choose|k: int| 0 <= k < subtree_rows(nodes, x).len() && subtree_rows(nodes, x)[k] == y;
    let at = rows_below(nodes, parent, j as nat).len() + k;
    if parent != p {
        assert(subtree_rows(nodes, parent)[1 + at] == y);
        lemma_shown_are_rows(nodes, p, parent, y);
    }
}

/// No node takes two of the rows of the first children of a node and of
/// what is shown below them.
proof fn lemma_rows_once(nodes: Seq<NodeModel>, p: int, upto: nat)
    requires
        tree_ok(nodes),
        0 <= p < nodes.len(),
        upto <= nodes[p].kids.len(),
    ensures
        rows_below(nodes, p, upto).no_duplicates(),
        upto == nodes[p].kids.len() ==> subtree_rows(nodes, p).no_duplicates(),
    decreases nodes.len() - p, upto,
{
    assert(node_ok(nodes, p));
    if upto > 0 {
        let c = nodes[p].kids[upto - 1].1 as int;
        let front = rows_below(nodes, p, (upto - 1) as nat);
        let block = subtree_rows(nodes, c);
        lemma_rows_once(nodes, p, (upto - 1) as nat);
        lemma_rows_once(nodes, c, nodes[c].kids.len());
        assert forall|a: int, b: int| 0 <= a < front.len() && 0 <= b < block.len() implies front[a]
            != block[b] by {
            if front[a] == block[b] {
                let x = front[a];
                lemma_rows_are_shown(nodes, p, (upto - 1) as nat, x);
                let j = choose|j: int|
                    0 <= j < upto - 1 && on_path(nodes, x, (#[trigger] nodes[p].kids[j]).1 as int);
                if x != c {
                    lemma_rows_are_shown(nodes, c, nodes[c].kids.len(), x);
                    let k = choose|k: int|
                        0 <= k < nodes[c].kids.len() && on_path(
                            nodes,
                            x,
                            (#[trigger] nodes[c].kids[k]).1 as int,
                        );
                    assert(node_ok(nodes, c));
                    lemma_on_path_parent(nodes, x, nodes[c].kids[k].1 as int);
                }
                lemma_on_path_one_kid(nodes, x, nodes[p].kids[j].1 as int, c);
            }
        }
    }
    if upto == nodes[p].kids.len() {
        let below = rows_below(nodes, p, upto);
        if nodes[p].flags.expanded {
            assert forall|a: int, b: int| 0 <= a < 1 && 0 <= b < below.len() implies seq![p][a]
                != below[b] by {
                if below[b] == p {
                    lemma_rows_are_shown(nodes, p, upto, p);
                    lemma_shown_below_after(nodes, p, p);
                }
            }
        }
    }
}

/// The rows of a tree are the nodes that it shows, each once.
///
/// So the number of rows is the number of nodes whose ancestors, the root
/// left out, are all expanded.
pub proof fn lemma_rows_are_the_shown(nodes: Seq<NodeModel>, top: int)
    requires
        tree_ok(nodes),
        0 <= top < nodes.len(),
    ensures
        rows(nodes, top).no_duplicates(),
        forall|i: int| rows(nodes, top).contains(i) <==> shown(nodes, top, i),
        rows(nodes, top).len() == Set::new(|i: int| shown(nodes, top, i)).len(),
        rows(nodes, top).len() <= nodes.len(),
{
    let all = nodes[top].kids.len();
    lemma_rows_once(nodes, top, all);
    assert forall|i: int| rows(nodes, top).contains(i) <==> shown(nodes, top, i) by {
        if rows(nodes, top).contains(i) {
            if nodes[top].is_root() || i != top {
                lemma_rows_are_shown(nodes, top, all, i);
            }
        }
        if shown(nodes, top, i) {
            if nodes[top].is_root() || i != top {
                assert(subtree_rows(nodes, i)[0] == i);
                lemma_shown_are_rows(nodes, top, i, i);
                if !nodes[top].is_root() {
                    let k = choose|k: int|
                        0 <= k < all_rows_below(nodes, top).len() && all_rows_below(nodes, top)[k]
                            == i;
                    assert(subtree_rows(nodes, top)[1 + k] == i);
                }
            } else {
                assert(subtree_rows(nodes, top)[0] == top);
            }
        }
    }
    let seen = rows(nodes, top);
    assert(seen.to_set() =~= Set::new(|i: int| shown(nodes, top, i)));
    seen.unique_seq_to_set();
    let range = Set::new(|i: int| 0 <= i < nodes.len());
    assert(range =~= vstd::set_lib::set_int_range(0, nodes.len() as int));
    vstd::set_lib::lemma_int_range(0, nodes.len() as int);
    vstd::set_lib::lemma_len_subset(seen.to_set(), range);
}

} // verus!
