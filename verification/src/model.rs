//! The tree as plain values, and what holds of it.

use vstd::prelude::*;

use crate::flags::TreeFlags;
use crate::node::{TreeData, TreeNode};
use crate::ordered_map::{keys_distinct, lemma_position_of, value_of, Entry};
use crate::{HashType, KeyType};

verus! {

/// What the tree holds of one node, as plain values.
pub struct NodeModel {
    /// The key of the node.
    pub key: KeyType,
    /// The class of the icon, if the node has one.
    pub icon: Option<Seq<char>>,
    /// The text shown in the row.
    pub title: Seq<char>,
    /// The fingerprint of what the row shows.
    pub hash: HashType,
    /// Whether the node can have children.
    pub expandable: bool,
    /// The index of the parent; the node's own index for a root.
    pub parent: int,
    /// The distance from the root.
    pub depth: int,
    /// The state of the node.
    pub flags: TreeFlags,
    /// The number of nodes below the node, shown or not.
    pub size: nat,
    /// The children in display order, each with its key.
    pub kids: Seq<Entry>,
}

impl NodeModel {
    /// Whether the node is a root.
    pub open spec fn is_root(self) -> bool {
        self.flags.root
    }

    /// Whether the children of the node are shown once the node is.
    pub open spec fn shows_children(self) -> bool {
        self.flags.root || self.flags.expanded
    }
}

/// The sum, over the given children, of one plus the size of the child.
pub open spec fn kids_size(nodes: Seq<NodeModel>, kids: Seq<Entry>) -> nat
    decreases kids.len(),
{
    if kids.len() == 0 {
        0
    } else {
        kids_size(nodes, kids.drop_last()) + 1 + nodes[kids.last().1 as int].size
    }
}

/// The entry names a node behind `parent` that has `parent` as its parent
/// and the entry's key as its key.
pub open spec fn kid_ok(nodes: Seq<NodeModel>, parent: int, kid: Entry) -> bool {
    &&& parent < kid.1 < nodes.len()
    &&& nodes[kid.1 as int].parent == parent
    &&& nodes[kid.1 as int].key == kid.0
}

/// What holds of every node of a tree.
///
/// A root is its own parent and has depth 0. Any other node comes after its
/// parent and lies one level deeper. The children of a node have distinct
/// keys, and each names the node as its parent. The size of a node that is
/// no root is the sum of one plus the size of each of its children; the
/// size of a root is not kept up to date, and is no more than that sum.
pub open spec fn node_ok(nodes: Seq<NodeModel>, i: int) -> bool {
    let node = nodes[i];
    &&& 0 <= node.parent <= i
    &&& node.is_root() <==> node.parent == i
    &&& 0 <= node.depth <= u16::MAX
    &&& node.is_root() ==> node.depth == 0
    &&& !node.is_root() ==> node.depth == nodes[node.parent].depth + 1
    &&& node.size <= usize::MAX
    &&& keys_distinct(node.kids)
    &&& forall|j: int| 0 <= j < node.kids.len() ==> kid_ok(nodes, i, #[trigger] node.kids[j])
    &&& !node.is_root() ==> node.size == kids_size(nodes, node.kids)
    &&& node.is_root() ==> node.size <= kids_size(nodes, node.kids)
}

/// Every node of the tree is as [`node_ok`] says.
pub open spec fn tree_ok(nodes: Seq<NodeModel>) -> bool {
    forall|i: int| 0 <= i < nodes.len() ==> #[trigger] node_ok(nodes, i)
}

/// The node is a root, or stands among the children of its parent.
pub open spec fn attached(nodes: Seq<NodeModel>, i: int) -> bool {
    nodes[i].is_root() || exists|j: int|
        0 <= j < nodes[nodes[i].parent].kids.len() && (#[trigger] nodes[nodes[i].parent].kids[j]).1
            == i
}

/// The sum over the children reads nothing but the sizes of the children.
pub proof fn lemma_kids_size_agrees(a: Seq<NodeModel>, b: Seq<NodeModel>, kids: Seq<Entry>)
    requires
        forall|j: int|
            0 <= j < kids.len() ==> a[(#[trigger] kids[j]).1 as int].size == b[kids[j].1 as int].size,
    ensures
        kids_size(a, kids) == kids_size(b, kids),
    decreases kids.len(),
{
    if kids.len() > 0 {
        let front = kids.drop_last();
        lemma_kids_size_agrees(a, b, front);
    }
}

/// A node that is added at the end, without children, leaves the tree well
/// formed if it is a root, or a leaf one level below a node of the tree.
pub proof fn lemma_push_ok(nodes: Seq<NodeModel>, node: NodeModel)
    requires
        tree_ok(nodes),
        node.kids.len() == 0,
        node.size == 0,
        0 <= node.parent <= nodes.len(),
        node.is_root() <==> node.parent == nodes.len(),
        node.is_root() ==> node.depth == 0,
        !node.is_root() ==> node.depth == nodes[node.parent].depth + 1 && node.depth <= u16::MAX,
    ensures
        tree_ok(nodes.push(node)),
{
    let after = nodes.push(node);
    assert forall|i: int| 0 <= i < after.len() implies #[trigger] node_ok(after, i) by {
        if i < nodes.len() {
            assert(node_ok(nodes, i));
            let kids = nodes[i].kids;
            lemma_kids_size_agrees(nodes, after, kids);
        } else {
            if !node.is_root() {
                assert(node_ok(nodes, node.parent));
            }
        }
    }
}

/// A node without children that shows what `data` holds.
pub open spec fn leaf_model<D: TreeData + ?Sized>(
    data: &D,
    parent: int,
    depth: int,
    flags: TreeFlags,
) -> NodeModel {
    NodeModel {
        key: data.spec_key(),
        icon: data.spec_icon(),
        title: data.spec_title(),
        hash: data.spec_hash(),
        expandable: data.spec_flags().expandable,
        parent,
        depth,
        flags,
        size: 0,
        kids: Seq::empty(),
    }
}


/// `a` lies on the way from `from` up to its root, both ends included.
pub open spec fn on_path(nodes: Seq<NodeModel>, from: int, a: int) -> bool
    decreases from,
{
    from == a || (0 <= nodes[from].parent < from && on_path(nodes, nodes[from].parent, a))
}

/// Every node on the way from `i` up to its root stands among the children
/// of its parent.
pub open spec fn in_tree(nodes: Seq<NodeModel>, i: int) -> bool
    decreases i,
{
    &&& 0 <= i < nodes.len()
    &&& nodes[i].is_root() || (attached(nodes, i) && 0 <= nodes[i].parent < i && in_tree(
        nodes,
        nodes[i].parent,
    ))
}

/// The node is no root and does not stand among the children of its parent.
pub open spec fn detached(nodes: Seq<NodeModel>, i: int) -> bool {
    !attached(nodes, i)
}

/// The entries under which the given nodes go into the map of their parent.
pub open spec fn entries_of(nodes: Seq<NodeModel>, children: Seq<TreeNode>) -> Seq<Entry> {
    Seq::new(children.len(), |j: int| (nodes[children[j]@].key, children[j].index))
}

/// The given nodes can become children of `at`: each names `at` as its
/// parent, and their keys differ from each other and from those of the
/// children that `at` has.
pub open spec fn adoptable(nodes: Seq<NodeModel>, at: int, children: Seq<TreeNode>) -> bool {
    &&& forall|j: int|
        0 <= j < children.len() ==> kid_ok(nodes, at, #[trigger] entries_of(nodes, children)[j])
    &&& keys_distinct(nodes[at].kids + entries_of(nodes, children))
}

/// The tree after `children` have been put under `at`, where the sizes have
/// been brought up to date from `at` upwards as far as `floor`.
///
/// The children go behind those that `at` has, and the size of `at` grows by
/// the sum of one plus the size of each. Every node from the parent of `at`
/// upwards that is no root and does not come before `floor` grows by as
/// much.
pub open spec fn inserted_above(
    nodes: Seq<NodeModel>,
    at: int,
    children: Seq<TreeNode>,
    floor: int,
) -> Seq<NodeModel> {
    let added = entries_of(nodes, children);
    let grown = kids_size(nodes, added);
    Seq::new(
        nodes.len(),
        |i: int|
            if i == at {
                NodeModel { kids: nodes[i].kids + added, size: nodes[i].size + grown, ..nodes[i] }
            } else if on_path(nodes, at, i) && !nodes[i].is_root() && floor <= i {
                NodeModel { size: nodes[i].size + grown, ..nodes[i] }
            } else {
                nodes[i]
            },
    )
}

/// The tree after `children` have been put under `at` and the sizes have
/// been brought up to date on the whole way up, the root left out.
pub open spec fn inserted(nodes: Seq<NodeModel>, at: int, children: Seq<TreeNode>) -> Seq<
    NodeModel,
> {
    inserted_above(nodes, at, children, 0)
}

/// The tree after `children` have been put under `at` and the size of `at`
/// alone has been brought up to date.
pub open spec fn built(nodes: Seq<NodeModel>, at: int, children: Seq<TreeNode>) -> Seq<NodeModel> {
    inserted_above(nodes, at, children, at)
}

/// The sum over two runs of children is the sum of the two sums.
pub proof fn lemma_kids_size_concat(nodes: Seq<NodeModel>, x: Seq<Entry>, y: Seq<Entry>)
    ensures
        kids_size(nodes, x + y) == kids_size(nodes, x) + kids_size(nodes, y),
    decreases y.len(),
{
    if y.len() == 0 {
    } else {
        assert((x + y).drop_last() =~= x + y.drop_last());
        lemma_kids_size_concat(nodes, x, y.drop_last());
    }
}

/// Where one child grows by `d` and the others keep their size, the sum
/// grows by `d`.
pub proof fn lemma_kids_size_bump(
    a: Seq<NodeModel>,
    b: Seq<NodeModel>,
    kids: Seq<Entry>,
    j: int,
    d: nat,
)
    requires
        0 <= j < kids.len(),
        b[kids[j].1 as int].size == a[kids[j].1 as int].size + d,
        forall|k: int|
            0 <= k < kids.len() && k != j ==> b[(#[trigger] kids[k]).1 as int].size
                == a[kids[k].1 as int].size,
    ensures
        kids_size(b, kids) == kids_size(a, kids) + d,
    decreases kids.len(),
{
    let front = kids.drop_last();
    if j == kids.len() - 1 {
        lemma_kids_size_agrees(a, b, front);
    } else {
        lemma_kids_size_bump(a, b, front, j, d);
    }
}

/// A node on the way up does not come after the node where the way starts.
pub proof fn lemma_on_path_le(nodes: Seq<NodeModel>, from: int, a: int)
    requires
        on_path(nodes, from, a),
    ensures
        a <= from,
        0 <= from ==> 0 <= a,
    decreases from,
{
    if from != a {
        lemma_on_path_le(nodes, nodes[from].parent, a);
    }
}

/// With a node that is no root, its parent lies on the way up.
pub proof fn lemma_on_path_parent(nodes: Seq<NodeModel>, from: int, c: int)
    requires
        on_path(nodes, from, c),
        0 <= nodes[c].parent < c,
    ensures
        on_path(nodes, from, nodes[c].parent),
    decreases from,
{
    if from == c {
        assert(on_path(nodes, nodes[c].parent, nodes[c].parent));
    } else {
        lemma_on_path_parent(nodes, nodes[from].parent, c);
    }
}

/// Two nodes on the way up that have the same parent are one node.
pub proof fn lemma_on_path_one_kid(nodes: Seq<NodeModel>, from: int, c1: int, c2: int)
    requires
        on_path(nodes, from, c1),
        on_path(nodes, from, c2),
        nodes[c1].parent == nodes[c2].parent,
        0 <= nodes[c1].parent < c1,
        0 <= nodes[c2].parent < c2,
    ensures
        c1 == c2,
    decreases from,
{
    if from == c1 {
        if from != c2 {
            lemma_on_path_le(nodes, nodes[from].parent, c2);
        }
    } else if from == c2 {
        lemma_on_path_le(nodes, nodes[from].parent, c1);
    } else {
        lemma_on_path_one_kid(nodes, nodes[from].parent, c1, c2);
    }
}

/// What lies on the way up before `cur` lies on the way up from the parent
/// of `cur`.
pub proof fn lemma_on_path_below(nodes: Seq<NodeModel>, from: int, cur: int, a: int)
    requires
        on_path(nodes, from, cur),
        0 <= nodes[cur].parent < cur,
        on_path(nodes, from, a),
        a < cur,
    ensures
        on_path(nodes, nodes[cur].parent, a),
    decreases from,
{
    if from != cur {
        lemma_on_path_le(nodes, nodes[from].parent, cur);
        lemma_on_path_below(nodes, nodes[from].parent, cur, a);
    }
}

/// Nothing on the way up comes before the node where the way ends.
pub proof fn lemma_on_path_above_root(nodes: Seq<NodeModel>, from: int, top: int, a: int)
    requires
        on_path(nodes, from, top),
        !(0 <= nodes[top].parent < top),
        on_path(nodes, from, a),
    ensures
        top <= a,
    decreases from,
{
    if from != top {
        lemma_on_path_le(nodes, nodes[from].parent, top);
        if from != a {
            lemma_on_path_above_root(nodes, nodes[from].parent, top, a);
        }
    }
}

/// Every node on the way up from a node of the tree is a node of the tree.
pub proof fn lemma_in_tree_path(nodes: Seq<NodeModel>, from: int, a: int)
    requires
        tree_ok(nodes),
        in_tree(nodes, from),
        on_path(nodes, from, a),
    ensures
        in_tree(nodes, a),
    decreases from,
{
    if from != a {
        assert(node_ok(nodes, from));
        lemma_in_tree_path(nodes, nodes[from].parent, a);
    }
}

/// A node on the way up, other than the start, has a child on the way up.
pub proof fn lemma_path_kid(nodes: Seq<NodeModel>, from: int, a: int) -> (c: int)
    requires
        on_path(nodes, from, a),
        a != from,
    ensures
        on_path(nodes, from, c),
        nodes[c].parent == a,
        a < c <= from,
    decreases from,
{
    if nodes[from].parent == a {
        from
    } else {
        lemma_path_kid(nodes, nodes[from].parent, a)
    }
}

/// What holds of `at` once the children are under it.
proof fn lemma_inserted_at_ok(nodes: Seq<NodeModel>, at: int, children: Seq<TreeNode>, floor: int)
    requires
        tree_ok(nodes),
        0 <= at < nodes.len(),
        adoptable(nodes, at, children),
        nodes[at].size + kids_size(nodes, entries_of(nodes, children)) <= usize::MAX,
    ensures
        node_ok(inserted_above(nodes, at, children, floor), at),
{
    let added = entries_of(nodes, children);
    let post = inserted_above(nodes, at, children, floor);
    let kids = nodes[at].kids;
    let all = kids + added;
    assert(node_ok(nodes, at));
    assert forall|j: int| 0 <= j < all.len() implies kid_ok(post, at, #[trigger] all[j]) && nodes[all[j].1 as int].size
        == post[all[j].1 as int].size by {
        if on_path(nodes, at, all[j].1 as int) {
            lemma_on_path_le(nodes, at, all[j].1 as int);
        }
    }
    lemma_kids_size_agrees(nodes, post, all);
    lemma_kids_size_concat(nodes, kids, added);
}

/// Children that go under a node of the tree, with the sizes brought up to
/// date on the whole way up, leave the tree well formed.
pub proof fn lemma_inserted_ok(nodes: Seq<NodeModel>, at: int, children: Seq<TreeNode>)
    requires
        tree_ok(nodes),
        in_tree(nodes, at),
        adoptable(nodes, at, children),
        nodes.len() <= usize::MAX,
    ensures
        tree_ok(inserted(nodes, at, children)),
{
    let added = entries_of(nodes, children);
    let grown = kids_size(nodes, added);
    let post = inserted(nodes, at, children);
    assert(on_path(nodes, at, at));
    assert forall|a: int| on_path(nodes, at, a) implies nodes[a].size + grown <= usize::MAX by {
        crate::sizes::lemma_growth_fits(nodes, at, children, a);
    }
    assert forall|i: int| 0 <= i < post.len() implies #[trigger] node_ok(post, i) by {
        assert(node_ok(nodes, i));
        let kids = nodes[i].kids;
        if i == at {
            lemma_inserted_at_ok(nodes, at, children, 0);
        } else {
            if on_path(nodes, at, i) {
                let c = lemma_path_kid(nodes, at, i);
                lemma_in_tree_path(nodes, at, c);
                assert(node_ok(nodes, c));
                let j = choose|j: int| 0 <= j < kids.len() && (#[trigger] kids[j]).1 == c;
                assert forall|k: int| 0 <= k < kids.len() && k != j implies post[(#[trigger] kids[k]).1 as int].size
                    == nodes[kids[k].1 as int].size by {
                    let d = kids[k].1 as int;
                    if on_path(nodes, at, d) {
                        lemma_on_path_one_kid(nodes, at, d, c);
                    }
                }
                lemma_kids_size_bump(nodes, post, kids, j, grown);
            } else {
                assert forall|k: int| 0 <= k < kids.len() implies nodes[(#[trigger] kids[k]).1 as int].size
                    == post[kids[k].1 as int].size by {
                    let d = kids[k].1 as int;
                    if on_path(nodes, at, d) {
                        lemma_on_path_parent(nodes, at, d);
                    }
                }
                lemma_kids_size_agrees(nodes, post, kids);
            }
        }
    }
}

/// Children that go under a root, or under a node that stands under no
/// parent yet, with the size of that node alone brought up to date, leave
/// the tree well formed.
pub proof fn lemma_built_ok(nodes: Seq<NodeModel>, at: int, children: Seq<TreeNode>)
    requires
        tree_ok(nodes),
        0 <= at < nodes.len(),
        nodes[at].is_root() || detached(nodes, at),
        adoptable(nodes, at, children),
        nodes.len() <= usize::MAX,
    ensures
        tree_ok(built(nodes, at, children)),
{
    let post = built(nodes, at, children);
    crate::sizes::lemma_growth_fits(nodes, at, children, at);
    assert forall|i: int| 0 <= i < post.len() implies #[trigger] node_ok(post, i) by {
        assert(node_ok(nodes, i));
        assert(node_ok(nodes, at));
        let kids = nodes[i].kids;
        if i == at {
            lemma_inserted_at_ok(nodes, at, children, at);
        } else {
            if on_path(nodes, at, i) {
                lemma_on_path_le(nodes, at, i);
            }
            assert forall|k: int| 0 <= k < kids.len() implies kid_ok(post, i, #[trigger] kids[k]) && nodes[kids[k].1 as int].size
                == post[kids[k].1 as int].size by {
                if on_path(nodes, at, kids[k].1 as int) {
                    lemma_on_path_le(nodes, at, kids[k].1 as int);
                }
            }
            lemma_kids_size_agrees(nodes, post, kids);
        }
    }
}

/// New flags on a node that stays a root, or stays none, leave the tree
/// well formed.
pub proof fn lemma_flags_ok(nodes: Seq<NodeModel>, at: int, flags: TreeFlags)
    requires
        tree_ok(nodes),
        0 <= at < nodes.len(),
        flags.root == nodes[at].flags.root,
    ensures
        tree_ok(nodes.update(at, NodeModel { flags, ..nodes[at] })),
{
    let post = nodes.update(at, NodeModel { flags, ..nodes[at] });
    assert forall|i: int| 0 <= i < post.len() implies #[trigger] node_ok(post, i) by {
        assert(node_ok(nodes, i));
        let kids = nodes[i].kids;
        lemma_kids_size_agrees(nodes, post, kids);
    }
}

/// A node that is no root stands among the children of its parent exactly
/// where the parent finds it under its key.
pub proof fn lemma_attached_by_key(nodes: Seq<NodeModel>, i: int)
    requires
        tree_ok(nodes),
        0 <= i < nodes.len(),
        !nodes[i].is_root(),
    ensures
        attached(nodes, i) <==> {
            &&& value_of(nodes[nodes[i].parent].kids, nodes[i].key) is Some
            &&& value_of(nodes[nodes[i].parent].kids, nodes[i].key)->0 == i
        },
{
    let parent = nodes[i].parent;
    let kids = nodes[parent].kids;
    assert(node_ok(nodes, i));
    assert(node_ok(nodes, parent));
    lemma_position_of(kids, nodes[i].key);
    if attached(nodes, i) {
        let j = choose|j: int| 0 <= j < kids.len() && (#[trigger] kids[j]).1 == i;
    }
}

/// The nodes that are made for the given data under `at`: leaves one level
/// below `at`, with no flag set.
pub open spec fn leaves<D: TreeData>(nodes: Seq<NodeModel>, at: int, datas: Seq<D>) -> Seq<
    NodeModel,
> {
    Seq::new(
        datas.len(),
        |j: int| leaf_model(&datas[j], at, nodes[at].depth + 1, TreeFlags::spec_empty()),
    )
}

/// The handles of `count` nodes that follow each other from `first` on.
pub open spec fn handles(first: nat, count: nat) -> Seq<TreeNode> {
    Seq::new(count, |j: int| TreeNode { index: (first + j) as usize })
}

/// The entries under which nodes made for the given data go into the map of
/// their parent, where the first of the nodes stands at `first`.
pub open spec fn entries_for<D: TreeData>(first: nat, datas: Seq<D>) -> Seq<Entry> {
    Seq::new(datas.len(), |j: int| (datas[j].spec_key(), (first + j) as usize))
}

/// The tree can take a child under `at` for each of the given data: `at`
/// is part of its tree and not at the greatest depth, the keys of the data
/// differ from each other and from those of the children that `at` has,
/// and the number of nodes stays within what a machine word holds.
pub open spec fn acceptable<D: TreeData>(nodes: Seq<NodeModel>, at: int, datas: Seq<D>) -> bool {
    &&& in_tree(nodes, at)
    &&& nodes[at].depth < u16::MAX
    &&& nodes.len() + datas.len() <= usize::MAX
    &&& keys_distinct(nodes[at].kids + entries_for(nodes.len(), datas))
}

/// The tree after a child has been made under `at` for each of the given
/// data: the new nodes stand behind the nodes that were there, in the order
/// of the data, and go under `at` as [`inserted`] says.
pub open spec fn grown<D: TreeData>(nodes: Seq<NodeModel>, at: int, datas: Seq<D>) -> Seq<
    NodeModel,
> {
    inserted(nodes + leaves(nodes, at, datas), at, handles(nodes.len(), datas.len()))
}

/// A node that is part of its tree stays so where nodes come behind and no
/// node loses a child.
pub proof fn lemma_in_tree_longer(a: Seq<NodeModel>, b: Seq<NodeModel>, i: int)
    requires
        in_tree(a, i),
        a.len() <= b.len(),
        forall|k: int|
            0 <= k < a.len() ==> (#[trigger] a[k]).parent == b[k].parent && a[k].is_root()
                == b[k].is_root() && a[k].kids.len() <= b[k].kids.len() && a[k].kids
                == b[k].kids.take(a[k].kids.len() as int),
    ensures
        in_tree(b, i),
    decreases i,
{
    if !a[i].is_root() {
        let parent = a[i].parent;
        lemma_in_tree_longer(a, b, parent);
        let j = choose|j: int| 0 <= j < a[parent].kids.len() && (#[trigger] a[parent].kids[j]).1
            == i;
    }
}

} // verus!
