//! How the rows of a tree follow a change of the tree.

use vstd::prelude::*;

use crate::flags::TreeFlags;
use crate::model::{
    acceptable, attached, entries_for, grown, leaves, lemma_flags_ok, node_ok, tree_ok, NodeModel,
};
use crate::node::TreeData;
use crate::ordered_map::{lemma_position_of, position_of, Entry};
use crate::projection::{
    all_rows_below, clean, keyed, keys_unique, lemma_clean_keyed, lemma_distinct_clean, projected,
    projection, rows, rows_below, subtree_rows,
};
use crate::visible::{lemma_rows_are_the_shown, shown, shown_below};

verus! {

/// Two states of a node show the same of it: they agree on the key, on
/// whether the node is a root and, for a node that is none, on whether it
/// is expanded, and, where the node shows its children, on the children.
pub open spec fn same_face(a: NodeModel, b: NodeModel) -> bool {
    &&& a.key == b.key
    &&& a.parent == b.parent
    &&& a.is_root() == b.is_root()
    &&& !a.is_root() ==> a.flags.expanded == b.flags.expanded
    &&& a.shows_children() ==> a.kids == b.kids
}

/// The second tree holds the nodes of the first from `from` on, and shows
/// the same of each.
pub open spec fn same_faces(a: Seq<NodeModel>, b: Seq<NodeModel>, from: int) -> bool {
    &&& a.len() <= b.len()
    &&& forall|i: int| from <= i < a.len() ==> same_face(#[trigger] a[i], b[i])
}

/// Where two trees show the same of every node from `p` on, the rows of the
/// first children of `p` are the same in both, and so are the rows of the
/// tree under `p`.
pub proof fn lemma_same_rows(a: Seq<NodeModel>, b: Seq<NodeModel>, p: int, upto: nat)
    requires
        tree_ok(a),
        0 <= p < a.len(),
        same_faces(a, b, p + 1),
        upto <= a[p].kids.len(),
        upto <= b[p].kids.len(),
        forall|j: int| 0 <= j < upto ==> a[p].kids[j] == b[p].kids[j],
    ensures
        rows_below(a, p, upto) == rows_below(b, p, upto),
        upto == a[p].kids.len() && same_face(a[p], b[p]) && !a[p].is_root() ==> subtree_rows(
            a,
            p,
        ) == subtree_rows(b, p),
    decreases a.len() - p, upto,
{
    assert(node_ok(a, p));
    if upto > 0 {
        let c = a[p].kids[upto - 1].1 as int;
        assert(node_ok(a, c));
        lemma_same_rows(a, b, p, (upto - 1) as nat);
        if a[c].flags.expanded {
            lemma_same_rows(a, b, c, a[c].kids.len());
        }
        assert(subtree_rows(a, c) == subtree_rows(b, c));
    }
}

/// Where two trees show the same of every node, they show the same rows
/// under the same keys.
pub proof fn lemma_same_projection(a: Seq<NodeModel>, b: Seq<NodeModel>, top: int)
    requires
        tree_ok(a),
        0 <= top < a.len(),
        same_faces(a, b, 0),
    ensures
        rows(a, top) == rows(b, top),
        projection(a, top) == projection(b, top),
        keys_unique(a, top) == keys_unique(b, top),
{
    if a[top].shows_children() {
        lemma_same_rows(a, b, top, a[top].kids.len());
    }
    lemma_rows_are_the_shown(a, top);
    let seen = rows(a, top);
    assert forall|k: int| 0 <= k < seen.len() implies a[#[trigger] seen[k]].key
        == b[seen[k]].key by {
        assert(shown(a, top, seen[k]));
    }
    lemma_same_keys(Seq::empty(), a, b, seen);
}

/// Rows of nodes that have the same keys in two trees go into a map alike.
pub proof fn lemma_same_keys(
    entries: Seq<Entry>,
    a: Seq<NodeModel>,
    b: Seq<NodeModel>,
    rows: Seq<int>,
)
    requires
        forall|k: int| 0 <= k < rows.len() ==> a[#[trigger] rows[k]].key == b[rows[k]].key,
    ensures
        projected(entries, a, rows) == projected(entries, b, rows),
        clean(entries, a, rows) == clean(entries, b, rows),
    decreases rows.len(),
{
    if rows.len() > 0 {
        let front = rows.drop_last();
        lemma_same_keys(entries, a, b, front);
    }
}

/// No two nodes that a tree shows have the same key exactly if the rows go
/// into the map by fresh keys.
pub proof fn lemma_unique_by_shown(nodes: Seq<NodeModel>, top: int)
    requires
        tree_ok(nodes),
        0 <= top < nodes.len(),
    ensures
        keys_unique(nodes, top) <==> forall|x: int, y: int|
            #![trigger shown(nodes, top, x), shown(nodes, top, y)]
            shown(nodes, top, x) && shown(nodes, top, y) && x != y ==> nodes[x].key
                != nodes[y].key,
{
    let seen = rows(nodes, top);
    lemma_rows_are_the_shown(nodes, top);
    if keys_unique(nodes, top) {
        lemma_clean_keyed(nodes, seen);
        assert forall|x: int, y: int|
            #![trigger shown(nodes, top, x), shown(nodes, top, y)]
            shown(nodes, top, x) && shown(nodes, top, y) && x != y implies nodes[x].key
            != nodes[y].key by {
            let i = choose|i: int| 0 <= i < seen.len() && seen[i] == x;
            let j = choose|j: int| 0 <= j < seen.len() && seen[j] == y;
            assert(keyed(nodes, seen)[i].0 == nodes[x].key);
            assert(keyed(nodes, seen)[j].0 == nodes[y].key);
        }
    }
    if forall|x: int, y: int|
        #![trigger shown(nodes, top, x), shown(nodes, top, y)]
        shown(nodes, top, x) && shown(nodes, top, y) && x != y ==> nodes[x].key != nodes[y].key {
        assert forall|i: int, j: int| 0 <= i < j < seen.len() implies (#[trigger] keyed(
            nodes,
            seen,
        )[i]).0 != (#[trigger] keyed(nodes, seen)[j]).0 by {
            assert(shown(nodes, top, seen[i]));
            assert(shown(nodes, top, seen[j]));
        }
        lemma_distinct_clean(nodes, seen);
    }
}

/// The tree where `at` has the given flags in place of its own.
pub open spec fn with_flags(nodes: Seq<NodeModel>, at: int, flags: TreeFlags) -> Seq<NodeModel> {
    nodes.update(at, NodeModel { flags, ..nodes[at] })
}

/// Flags that leave a node a root or none as it was, and a node that is
/// no root expanded or not as it was, leave the rows as they were.
pub proof fn lemma_flags_same_rows(nodes: Seq<NodeModel>, top: int, at: int, flags: TreeFlags)
    requires
        tree_ok(nodes),
        0 <= top < nodes.len(),
        0 <= at < nodes.len(),
        flags.root == nodes[at].flags.root,
        !flags.root ==> flags.expanded == nodes[at].flags.expanded,
    ensures
        tree_ok(with_flags(nodes, at, flags)),
        rows(with_flags(nodes, at, flags), top) == rows(nodes, top),
        projection(with_flags(nodes, at, flags), top) == projection(nodes, top),
        keys_unique(with_flags(nodes, at, flags), top) == keys_unique(nodes, top),
{
    lemma_flags_ok(nodes, at, flags);
    lemma_same_projection(nodes, with_flags(nodes, at, flags), top);
}

/// What a tree shows once a node is no longer expanded, it showed before.
proof fn lemma_collapse_shows_less(nodes: Seq<NodeModel>, top: int, at: int, flags: TreeFlags, x: int)
    requires
        0 <= at < nodes.len(),
        flags.root == nodes[at].flags.root,
        flags.expanded ==> nodes[at].flags.expanded,
        shown_below(with_flags(nodes, at, flags), top, x),
    ensures
        shown_below(nodes, top, x),
    decreases x,
{
    let post = with_flags(nodes, at, flags);
    let parent = nodes[x].parent;
    if attached(post, x) && !post[x].is_root() {
        let j = choose|j: int| 0 <= j < post[parent].kids.len() && (#[trigger] post[parent].kids[j]).1
            == x;
    }
    if parent != top {
        lemma_collapse_shows_less(nodes, top, at, flags, parent);
    }
}

/// A tree in which no two shown nodes have the same key stays so when a
/// node is collapsed.
pub proof fn lemma_collapse_unique(nodes: Seq<NodeModel>, top: int, at: int, flags: TreeFlags)
    requires
        tree_ok(nodes),
        0 <= top < nodes.len(),
        0 <= at < nodes.len(),
        flags.root == nodes[at].flags.root,
        flags.expanded ==> nodes[at].flags.expanded,
        keys_unique(nodes, top),
    ensures
        tree_ok(with_flags(nodes, at, flags)),
        keys_unique(with_flags(nodes, at, flags), top),
{
    let post = with_flags(nodes, at, flags);
    lemma_flags_ok(nodes, at, flags);
    lemma_unique_by_shown(nodes, top);
    lemma_unique_by_shown(post, top);
    assert forall|x: int, y: int|
        #![trigger shown(post, top, x), shown(post, top, y)]
        shown(post, top, x) && shown(post, top, y) && x != y implies post[x].key != post[y].key by {
        if shown_below(post, top, x) {
            lemma_collapse_shows_less(nodes, top, at, flags, x);
        }
        if shown_below(post, top, y) {
            lemma_collapse_shows_less(nodes, top, at, flags, y);
        }
        assert(shown(nodes, top, x));
        assert(shown(nodes, top, y));
    }
}

/// Children that are made under a node that does not show its children
/// leave the rows as they were.
pub proof fn lemma_grown_hidden<D: TreeData>(nodes: Seq<NodeModel>, top: int, at: int, datas: Seq<D>)
    requires
        tree_ok(nodes),
        0 <= top < nodes.len(),
        0 <= at < nodes.len(),
        !nodes[at].shows_children(),
    ensures
        rows(grown(nodes, at, datas), top) == rows(nodes, top),
        projection(grown(nodes, at, datas), top) == projection(nodes, top),
        keys_unique(grown(nodes, at, datas), top) == keys_unique(nodes, top),
{
    let post = grown(nodes, at, datas);
    lemma_same_projection(nodes, post, top);
}

/// The keys of the given data are not among the keys of the entries.
pub open spec fn keys_fresh<D: TreeData>(entries: Seq<Entry>, datas: Seq<D>) -> bool {
    forall|j: int| 0 <= j < datas.len() ==> position_of(entries, (#[trigger] datas[j]).spec_key())
        is None
}

/// Children that are made under a root come behind the rows of the root,
/// one row each. Where their keys are not among the keys of the rows, no
/// two shown nodes have the same key afterwards if none had before.
pub proof fn lemma_grown_root<D: TreeData>(nodes: Seq<NodeModel>, root: int, datas: Seq<D>)
    requires
        tree_ok(nodes),
        0 <= root < nodes.len(),
        nodes[root].is_root(),
        acceptable(nodes, root, datas),
    ensures
        rows(grown(nodes, root, datas), root) == rows(nodes, root) + Seq::new(
            datas.len(),
            |j: int| nodes.len() + j,
        ),
        keys_unique(nodes, root) && keys_fresh(projection(nodes, root), datas) ==> keys_unique(
            grown(nodes, root, datas),
            root,
        ),
{
    let post = grown(nodes, root, datas);
    let kids = nodes[root].kids;
    let fresh = Seq::new(datas.len(), |j: int| nodes.len() + j);
    lemma_same_rows(nodes, post, root, kids.len());
    lemma_grown_root_rows(nodes, root, datas, datas.len());
    assert(fresh.take(datas.len() as int) =~= fresh);
    if keys_unique(nodes, root) && keys_fresh(projection(nodes, root), datas) {
        let seen = rows(nodes, root);
        let all = seen + fresh;
        lemma_rows_are_the_shown(nodes, root);
        lemma_clean_keyed(nodes, seen);
        assert forall|i: int, j: int| 0 <= i < j < all.len() implies (#[trigger] keyed(post, all)[i]).0
            != (#[trigger] keyed(post, all)[j]).0 by {
            if i < seen.len() {
                assert(shown(nodes, root, seen[i]));
                assert(keyed(nodes, seen)[i].0 == post[all[i]].key);
            }
            if j < seen.len() {
                assert(shown(nodes, root, seen[j]));
                assert(keyed(nodes, seen)[j].0 == post[all[j]].key);
            } else {
                let k = j - seen.len();
                if i < seen.len() {
                    lemma_position_of(keyed(nodes, seen), datas[k].spec_key());
                } else {
                    let both = kids + entries_for(nodes.len(), datas);
                    assert(both[kids.len() + (i - seen.len())] == entries_for(nodes.len(), datas)[i
                        - seen.len()]);
                    assert(both[kids.len() + k] == entries_for(nodes.len(), datas)[k]);
                }
            }
        }
        lemma_distinct_clean(post, all);
    }
}

/// The rows of a root whose children have grown, up to the first `count`
/// of the new children.
proof fn lemma_grown_root_rows<D: TreeData>(
    nodes: Seq<NodeModel>,
    root: int,
    datas: Seq<D>,
    count: nat,
)
    requires
        tree_ok(nodes),
        0 <= root < nodes.len(),
        nodes[root].is_root(),
        count <= datas.len(),
        nodes.len() + datas.len() <= usize::MAX,
        rows_below(grown(nodes, root, datas), root, nodes[root].kids.len()) == all_rows_below(
            nodes,
            root,
        ),
    ensures
        rows_below(grown(nodes, root, datas), root, nodes[root].kids.len() + count)
            == all_rows_below(nodes, root) + Seq::new(datas.len(), |j: int| nodes.len() + j).take(
            count as int,
        ),
    decreases count,
{
    let post = grown(nodes, root, datas);
    let kids = nodes[root].kids;
    if count == 0 {
    } else {
        lemma_grown_root_rows(nodes, root, datas, (count - 1) as nat);
        let c = nodes.len() + count - 1;
        assert(subtree_rows(post, c) =~= seq![c]);
    }
}

} // verus!
