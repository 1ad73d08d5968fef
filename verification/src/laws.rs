//! What holds of a tree and of its rows across requests.

use vstd::prelude::*;

use crate::changes::{lemma_flags_same_rows, lemma_grown_root, with_flags};
use crate::dynamic::{loaded, loaded_shown, only_loading, shown_loaded};
use crate::flags::TreeFlags;
use crate::model::{
    attached, grown, handles, kids_size, leaves, lemma_flags_ok, node_ok, tree_ok, NodeModel,
};
use crate::node::TreeData;
use crate::projection::{keys_unique, lemma_clean_keyed, projection, rows};
use crate::visible::{lemma_rows_are_the_shown, shown, shown_below};

verus! {

/// The size of a node that is no root is the number of its children plus
/// the sizes of its children.
pub proof fn lemma_subtree_sizes(nodes: Seq<NodeModel>, i: int)
    requires
        tree_ok(nodes),
        0 <= i < nodes.len(),
        !nodes[i].is_root(),
    ensures
        nodes[i].size == kids_size(nodes, nodes[i].kids),
{
    assert(node_ok(nodes, i));
}

/// Where no two shown nodes have the same key, the map from keys to rows
/// has as many entries as the tree shows nodes: as many as there are nodes
/// whose ancestors, the root left out, are all expanded.
pub proof fn lemma_flatten_length(nodes: Seq<NodeModel>, top: int)
    requires
        tree_ok(nodes),
        0 <= top < nodes.len(),
        keys_unique(nodes, top),
    ensures
        projection(nodes, top).len() == Set::new(|i: int| shown(nodes, top, i)).len(),
{
    lemma_rows_are_the_shown(nodes, top);
    lemma_clean_keyed(nodes, rows(nodes, top));
}

/// A node that is collapsed and then expanded again shows the rows that it
/// showed before: the tree is the same, and so are the rows.
pub proof fn lemma_collapse_expand(nodes: Seq<NodeModel>, top: int, at: int)
    requires
        0 <= at < nodes.len(),
        nodes[at].flags.expanded,
    ensures
        ({
            let shut = with_flags(nodes, at, TreeFlags { expanded: false, ..nodes[at].flags });
            let open = with_flags(shut, at, TreeFlags { expanded: true, ..shut[at].flags });
            &&& open == nodes
            &&& rows(open, top) == rows(nodes, top)
            &&& projection(open, top) == projection(nodes, top)
        }),
{
}

/// A node that begins to load shows the rows that it showed before.
pub proof fn lemma_loading_keeps_rows(nodes: Seq<NodeModel>, top: int, at: int)
    requires
        tree_ok(nodes),
        0 <= top < nodes.len(),
        0 <= at < nodes.len(),
    ensures
        rows(
            with_flags(nodes, at, nodes[at].flags.spec_symmetric_difference(only_loading())),
            top,
        ) == rows(nodes, top),
{
    lemma_flags_same_rows(
        nodes,
        top,
        at,
        nodes[at].flags.spec_symmetric_difference(only_loading()),
    );
}

/// What the tree shows of its old nodes once a shown node without
/// children has been given children and is expanded.
proof fn lemma_loaded_shows_old<D: TreeData>(
    nodes: Seq<NodeModel>,
    root: int,
    at: int,
    datas: Seq<D>,
    flags: TreeFlags,
    x: int,
)
    requires
        tree_ok(nodes),
        0 <= root < nodes.len(),
        0 <= at < nodes.len(),
        at != root,
        0 <= x < nodes.len(),
        nodes[at].kids.len() == 0,
        flags.root == nodes[at].flags.root,
        nodes.len() + datas.len() <= usize::MAX,
    ensures
        shown_below(with_flags(grown(nodes, at, datas), at, flags), root, x) == shown_below(
            nodes,
            root,
            x,
        ),
    decreases x,
{
    let post = with_flags(grown(nodes, at, datas), at, flags);
    let parent = nodes[x].parent;
    assert(node_ok(nodes, x));
    if 0 <= parent < x {
        if parent != at {
            if attached(nodes, x) {
                let j = choose|j: int|
                    0 <= j < nodes[parent].kids.len() && (#[trigger] nodes[parent].kids[j]).1 == x;
            }
            if attached(post, x) {
                let j = choose|j: int|
                    0 <= j < post[parent].kids.len() && (#[trigger] post[parent].kids[j]).1 == x;
            }
            if parent != root {
                lemma_loaded_shows_old(nodes, root, at, datas, flags, parent);
            }
        } else {
            if attached(post, x) {
                let j = choose|j: int|
                    0 <= j < post[parent].kids.len() && (#[trigger] post[parent].kids[j]).1 == x;
            }
        }
    }
}

/// Children that come for a shown node that has none, and that are shown,
/// add one row each.
///
/// So a request that finds its node loading leaves the number of rows as it
/// is, and the answer to it adds exactly the number of children.
pub proof fn lemma_loaded_count<D: TreeData>(
    nodes: Seq<NodeModel>,
    root: int,
    at: int,
    datas: Seq<D>,
    base: TreeFlags,
)
    requires
        tree_ok(nodes),
        0 <= root < nodes.len(),
        nodes[root].is_root(),
        0 <= at < nodes.len(),
        at == root || shown(nodes, root, at),
        nodes[at].kids.len() == 0,
        !nodes[at].flags.expanded,
        base.root == nodes[at].flags.root,
        loaded_shown(nodes, root, at, datas, base),
    ensures
        rows(loaded(nodes, root, at, datas, base), root).len() == rows(nodes, root).len()
            + datas.len(),
{
    let wide = nodes + leaves(nodes, at, datas);
    let tall = grown(nodes, at, datas);
    let post = with_flags(tall, at, shown_loaded(base));
    lemma_grown_is_ok(nodes, at, datas);
    crate::model::lemma_inserted_ok(wide, at, handles(nodes.len(), datas.len()));
    if at == root {
        lemma_grown_root(nodes, root, datas);
        lemma_flags_same_rows(tall, root, at, shown_loaded(base));
    } else {
        lemma_flags_ok(tall, at, shown_loaded(base));
        lemma_rows_are_the_shown(nodes, root);
        lemma_rows_are_the_shown(post, root);
        let old_shown = Set::new(|i: int| shown(nodes, root, i));
        let new_shown = Set::new(|i: int| shown(post, root, i));
        let fresh = vstd::set_lib::set_int_range(nodes.len() as int, post.len() as int);
        assert forall|i: int| new_shown.contains(i) <==> old_shown.contains(i) || fresh.contains(
            i,
        ) by {
            if 0 <= i < nodes.len() {
                lemma_loaded_shows_old(nodes, root, at, datas, shown_loaded(base), i);
            } else if nodes.len() <= i < post.len() {
                let j = i - nodes.len();
                assert(post[at].kids[j].1 == i);
                lemma_loaded_shows_old(nodes, root, at, datas, shown_loaded(base), at);
            }
        }
        assert(new_shown =~= old_shown + fresh);
        vstd::set_lib::lemma_int_range(nodes.len() as int, post.len() as int);
        let seen = rows(nodes, root);
        assert(seen.to_set() =~= old_shown);
        vstd::set_lib::lemma_set_disjoint_lens(old_shown, fresh);
    }
}

/// Children that a node can take leave the tree well formed once they are
/// under it.
proof fn lemma_grown_is_ok<D: TreeData>(nodes: Seq<NodeModel>, at: int, datas: Seq<D>)
    requires
        tree_ok(nodes),
        0 <= at < nodes.len(),
        crate::model::acceptable(nodes, at, datas),
    ensures
        tree_ok(nodes + leaves(nodes, at, datas)),
        crate::model::in_tree(nodes + leaves(nodes, at, datas), at),
        crate::model::adoptable(
            nodes + leaves(nodes, at, datas),
            at,
            handles(nodes.len(), datas.len()),
        ),
{
    let made = leaves(nodes, at, datas);
    let wide = nodes + made;
    let added = crate::model::entries_of(wide, handles(nodes.len(), datas.len()));
    lemma_leaves_ok(nodes, at, datas, datas.len());
    assert(made.take(datas.len() as int) =~= made);
    assert(added =~= crate::model::entries_for(nodes.len(), datas));
    assert forall|k: int| 0 <= k < nodes.len() implies (#[trigger] nodes[k]).parent
        == wide[k].parent && nodes[k].is_root() == wide[k].is_root() && nodes[k].kids.len()
        <= wide[k].kids.len() && nodes[k].kids == wide[k].kids.take(nodes[k].kids.len() as int) by {}
    crate::model::lemma_in_tree_longer(nodes, wide, at);
}

/// The first of the leaves that are made under a node leave the tree well
/// formed.
proof fn lemma_leaves_ok<D: TreeData>(nodes: Seq<NodeModel>, at: int, datas: Seq<D>, count: nat)
    requires
        tree_ok(nodes),
        0 <= at < nodes.len(),
        nodes[at].depth < u16::MAX,
        count <= datas.len(),
    ensures
        tree_ok(nodes + leaves(nodes, at, datas).take(count as int)),
    decreases count,
{
    let made = leaves(nodes, at, datas);
    if count == 0 {
    } else {
        lemma_leaves_ok(nodes, at, datas, (count - 1) as nat);
        let front = nodes + made.take(count - 1);
        crate::model::lemma_push_ok(front, made[count - 1]);
        assert(front.push(made[count - 1]) =~= nodes + made.take(count as int));
    }
}

} // verus!
