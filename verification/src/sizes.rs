//! The size of a node is the number of the nodes below it.

use vstd::prelude::*;

use crate::model::{
    adoptable, attached, entries_of, kid_ok, kids_size, lemma_on_path_le, lemma_on_path_one_kid,
    node_ok, on_path, tree_ok, NodeModel,
};
use crate::node::TreeNode;
use crate::ordered_map::{keys_distinct, Entry};

verus! {

/// `x` lies below `a`: the way from `x` up leads to `a` through nodes that
/// stand among the children of their parents.
pub open spec fn below(nodes: Seq<NodeModel>, a: int, x: int) -> bool
    decreases x,
{
    &&& 0 <= nodes[x].parent < x < nodes.len()
    &&& attached(nodes, x)
    &&& nodes[x].parent == a || below(nodes, a, nodes[x].parent)
}

/// The nodes that lie below `a`.
pub open spec fn descendants(nodes: Seq<NodeModel>, a: int) -> Set<int> {
    Set::new(|x: int| below(nodes, a, x))
}

/// The given children together with the nodes that lie below them.
pub open spec fn subtrees(nodes: Seq<NodeModel>, kids: Seq<Entry>) -> Set<int> {
    Set::new(
        |x: int|
            exists|j: int|
                0 <= j < kids.len() && (x == (#[trigger] kids[j]).1 || below(
                    nodes,
                    kids[j].1 as int,
                    x,
                )),
    )
}

/// What lies below a node comes after the node, and has the node on its
/// way up.
pub proof fn lemma_below_after(nodes: Seq<NodeModel>, a: int, x: int)
    requires
        below(nodes, a, x),
    ensures
        a < x < nodes.len(),
        on_path(nodes, x, a),
    decreases x,
{
    if nodes[x].parent != a {
        lemma_below_after(nodes, a, nodes[x].parent);
    } else {
        assert(on_path(nodes, a, a));
    }
}

/// What lies below a child of a node lies below the node.
pub proof fn lemma_below_lift(nodes: Seq<NodeModel>, a: int, c: int, x: int)
    requires
        below(nodes, c, x),
        below(nodes, a, c),
    ensures
        below(nodes, a, x),
    decreases x,
{
    if nodes[x].parent != c {
        lemma_below_lift(nodes, a, c, nodes[x].parent);
    }
}

/// What lies below a node is one of its children or lies below one.
pub proof fn lemma_below_through_kid(nodes: Seq<NodeModel>, a: int, x: int) -> (j: int)
    requires
        tree_ok(nodes),
        0 <= a < nodes.len(),
        below(nodes, a, x),
    ensures
        0 <= j < nodes[a].kids.len(),
        x == nodes[a].kids[j].1 || below(nodes, nodes[a].kids[j].1 as int, x),
    decreases x,
{
    assert(node_ok(nodes, x));
    if nodes[x].parent == a {
        choose|j: int| 0 <= j < nodes[a].kids.len() && (#[trigger] nodes[a].kids[j]).1 == x
    } else {
        lemma_below_through_kid(nodes, a, nodes[x].parent)
    }
}

/// The nodes of a tree from `from` on.
pub open spec fn nodes_from(nodes: Seq<NodeModel>, from: int) -> Set<int> {
    vstd::set_lib::set_int_range(from, nodes.len() as int)
}

/// The children of a node, each with what lies below it, are as many nodes
/// as their sizes come to, and so are the nodes below a node that is no
/// root.
pub proof fn lemma_size_counts(nodes: Seq<NodeModel>, a: int, upto: nat)
    requires
        tree_ok(nodes),
        0 <= a < nodes.len(),
        upto <= nodes[a].kids.len(),
    ensures
        subtrees(nodes, nodes[a].kids.take(upto as int)).finite(),
        subtrees(nodes, nodes[a].kids.take(upto as int)).len() == kids_size(
            nodes,
            nodes[a].kids.take(upto as int),
        ),
        subtrees(nodes, nodes[a].kids.take(upto as int)).subset_of(nodes_from(nodes, a + 1)),
        upto == nodes[a].kids.len() ==> descendants(nodes, a) == subtrees(nodes, nodes[a].kids),
        upto == nodes[a].kids.len() && !nodes[a].is_root() ==> descendants(nodes, a).len()
            == nodes[a].size,
    decreases nodes.len() - a, upto,
{
    let kids = nodes[a].kids;
    let some = kids.take(upto as int);
    assert(node_ok(nodes, a));
    if upto == 0 {
        assert(subtrees(nodes, some) =~= Set::<int>::empty());
    } else {
        let c = kids[upto - 1].1 as int;
        let front = kids.take(upto - 1);
        assert(node_ok(nodes, c));
        assert(some.drop_last() =~= front);
        assert(some.last() == kids[upto - 1]);
        lemma_size_counts(nodes, a, (upto - 1) as nat);
        lemma_size_counts(nodes, c, nodes[c].kids.len());
        assert(nodes[c].kids.take(nodes[c].kids.len() as int) =~= nodes[c].kids);
        let under = descendants(nodes, c);
        let block = under.insert(c);
        let before = subtrees(nodes, front);
        assert(subtrees(nodes, some) =~= before + block);
        assert(before.disjoint(block)) by {
            assert forall|x: int| !(before.contains(x) && block.contains(x)) by {
                if before.contains(x) && block.contains(x) {
                    let j = choose|j: int|
                        0 <= j < front.len() && (x == (#[trigger] front[j]).1 || below(
                            nodes,
                            front[j].1 as int,
                            x,
                        ));
                    let d = front[j].1 as int;
                    if x != d {
                        lemma_below_after(nodes, d, x);
                    }
                    if x != c {
                        lemma_below_after(nodes, c, x);
                    }
                    lemma_on_path_one_kid(nodes, x, d, c);
                }
            }
        }
        vstd::set_lib::lemma_set_disjoint_lens(before, block);
    }
    if upto == kids.len() {
        assert(some =~= kids);
        assert(descendants(nodes, a) =~= subtrees(nodes, kids)) by {
            assert forall|x: int| descendants(nodes, a).contains(x) <==> subtrees(
                nodes,
                kids,
            ).contains(x) by {
                if below(nodes, a, x) {
                    let j = lemma_below_through_kid(nodes, a, x);
                }
                if subtrees(nodes, kids).contains(x) {
                    let j = choose|j: int|
                        0 <= j < kids.len() && (x == (#[trigger] kids[j]).1 || below(
                            nodes,
                            kids[j].1 as int,
                            x,
                        ));
                    let d = kids[j].1 as int;
                    if x != d {
                        lemma_below_lift(nodes, a, d, x);
                    }
                }
            }
        }
    }
}

/// The size of a node that is no root is the number of the nodes below it,
/// shown or not.
pub proof fn lemma_size_is_count(nodes: Seq<NodeModel>, a: int)
    requires
        tree_ok(nodes),
        0 <= a < nodes.len(),
        !nodes[a].is_root(),
    ensures
        descendants(nodes, a).finite(),
        descendants(nodes, a).len() == nodes[a].size,
        nodes[a].size < nodes.len() - a,
{
    lemma_size_counts(nodes, a, nodes[a].kids.len());
    assert(nodes[a].kids.take(nodes[a].kids.len() as int) =~= nodes[a].kids);
    vstd::set_lib::lemma_int_range(a + 1, nodes.len() as int);
    vstd::set_lib::lemma_len_subset(descendants(nodes, a), nodes_from(nodes, a + 1));
}

/// Nodes with one parent and different keys, each with what lies below
/// it, are as many nodes as their sizes come to.
pub proof fn lemma_subtrees_count(nodes: Seq<NodeModel>, parent: int, kids: Seq<Entry>)
    requires
        tree_ok(nodes),
        forall|j: int| 0 <= j < kids.len() ==> kid_ok(nodes, parent, #[trigger] kids[j]),
        keys_distinct(kids),
    ensures
        subtrees(nodes, kids).finite(),
        subtrees(nodes, kids).len() == kids_size(nodes, kids),
        subtrees(nodes, kids).subset_of(nodes_from(nodes, parent + 1)),
    decreases kids.len(),
{
    if kids.len() == 0 {
        assert(subtrees(nodes, kids) =~= Set::<int>::empty());
    } else {
        let front = kids.drop_last();
        let c = kids.last().1 as int;
        assert(node_ok(nodes, c));
        lemma_subtrees_count(nodes, parent, front);
        lemma_size_is_count(nodes, c);
        let under = descendants(nodes, c);
        let block = under.insert(c);
        assert(!under.contains(c)) by {
            if below(nodes, c, c) {
                lemma_below_after(nodes, c, c);
            }
        }
        let before = subtrees(nodes, front);
        assert(subtrees(nodes, kids) =~= before + block) by {
            assert forall|x: int| subtrees(nodes, kids).contains(x) <==> (before + block).contains(
                x,
            ) by {
                if subtrees(nodes, kids).contains(x) {
                    let j = choose|j: int|
                        0 <= j < kids.len() && (x == (#[trigger] kids[j]).1 || below(
                            nodes,
                            kids[j].1 as int,
                            x,
                        ));
                    if j < kids.len() - 1 {
                        assert(front[j] == kids[j]);
                    }
                }
                if before.contains(x) {
                    let j = choose|j: int|
                        0 <= j < front.len() && (x == (#[trigger] front[j]).1 || below(
                            nodes,
                            front[j].1 as int,
                            x,
                        ));
                }
            }
        }
        assert(before.disjoint(block)) by {
            assert forall|x: int| !(before.contains(x) && block.contains(x)) by {
                if before.contains(x) && block.contains(x) {
                    let j = choose|j: int|
                        0 <= j < front.len() && (x == (#[trigger] front[j]).1 || below(
                            nodes,
                            front[j].1 as int,
                            x,
                        ));
                    let d = front[j].1 as int;
                    if x != d {
                        lemma_below_after(nodes, d, x);
                    }
                    if x != c {
                        lemma_below_after(nodes, c, x);
                    }
                    lemma_on_path_one_kid(nodes, x, d, c);
                }
            }
        }
        vstd::set_lib::lemma_set_disjoint_lens(before, block);
        assert(block.subset_of(nodes_from(nodes, parent + 1))) by {
            assert forall|x: int| block.contains(x) implies nodes_from(nodes, parent + 1).contains(
                x,
            ) by {
                if x != c {
                    lemma_below_after(nodes, c, x);
                }
            }
        }
    }
}

/// A node on the way from `x` up to `a` lies below `a`.
proof fn lemma_below_between(nodes: Seq<NodeModel>, a: int, c: int, x: int)
    requires
        below(nodes, a, x),
        on_path(nodes, x, c),
        a < c,
    ensures
        c == x || below(nodes, a, c),
    decreases x,
{
    if c != x {
        if nodes[x].parent == a {
            lemma_on_path_le(nodes, a, c);
        } else if nodes[x].parent != c {
            lemma_below_between(nodes, a, c, nodes[x].parent);
        }
    }
}

/// The size of a node on the way up from `at`, together with the sizes of
/// nodes that can become children of `at`, is less than the number of
/// nodes: the nodes below the one and those that come with the others are
/// different nodes.
pub proof fn lemma_growth_fits(nodes: Seq<NodeModel>, at: int, children: Seq<TreeNode>, a: int)
    requires
        tree_ok(nodes),
        0 <= at < nodes.len(),
        adoptable(nodes, at, children),
        on_path(nodes, at, a),
    ensures
        nodes[a].size + kids_size(nodes, entries_of(nodes, children)) < nodes.len(),
{
    let added = entries_of(nodes, children);
    let kids = nodes[at].kids;
    let both = kids + added;
    lemma_on_path_le(nodes, at, a);
    assert(node_ok(nodes, a));
    assert(keys_distinct(added)) by {
        assert forall|i: int, j: int| 0 <= i < j < added.len() implies (#[trigger] added[i]).0 != (
        #[trigger] added[j]).0 by {
            assert(both[kids.len() + i] == added[i]);
            assert(both[kids.len() + j] == added[j]);
        }
    }
    lemma_subtrees_count(nodes, at, added);
    lemma_size_counts(nodes, a, nodes[a].kids.len());
    assert(nodes[a].kids.take(nodes[a].kids.len() as int) =~= nodes[a].kids);
    let under = descendants(nodes, a);
    let coming = subtrees(nodes, added);
    vstd::set_lib::lemma_int_range(a + 1, nodes.len() as int);
    assert(under.disjoint(coming)) by {
        assert forall|x: int| !(under.contains(x) && coming.contains(x)) by {
            if under.contains(x) && coming.contains(x) {
                let j = choose|j: int|
                    0 <= j < added.len() && (x == (#[trigger] added[j]).1 || below(
                        nodes,
                        added[j].1 as int,
                        x,
                    ));
                let c = added[j].1 as int;
                assert(node_ok(nodes, c));
                assert(node_ok(nodes, at));
                if x != c {
                    lemma_below_after(nodes, c, x);
                    lemma_below_between(nodes, a, c, x);
                }
                let i = choose|i: int| 0 <= i < kids.len() && (#[trigger] kids[i]).1 == c;
                assert(both[i] == kids[i]);
                assert(both[kids.len() + j] == added[j]);
            }
        }
    }
    vstd::set_lib::lemma_set_disjoint_lens(under, coming);
    vstd::set_lib::lemma_len_subset(under + coming, nodes_from(nodes, a + 1));
}

} // verus!
