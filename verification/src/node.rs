//! The nodes of a tree and the arena that holds them.

use vstd::prelude::*;

use crate::flags::TreeFlags;
use crate::item::TreeItem;
use crate::model::{
    acceptable, adoptable, attached, built, detached, entries_for, entries_of, grown, handles,
    in_tree, inserted, inserted_above, kid_ok, kids_size, leaf_model, leaves, lemma_attached_by_key,
    lemma_built_ok, lemma_flags_ok, lemma_in_tree_longer, lemma_inserted_ok, lemma_kids_size_concat,
    lemma_on_path_above_root, lemma_on_path_below, lemma_on_path_le, lemma_on_path_parent,
    lemma_push_ok, node_ok, on_path, tree_ok, NodeModel,
};
use crate::ordered_map::{
    keys_distinct, lemma_position_of, map_entries, map_get, map_get_index, map_insert, map_len,
    map_new, position_of, value_of, KeyMap,
};
use crate::projection::{
    clean, keys_unique, lemma_clean_concat, lemma_projected_concat, projected, projection, rows,
    rows_below, subtree_rows,
};
use crate::root::RootData;
use crate::sizes::lemma_growth_fits;
use crate::{HashType, KeyType, ROOT_KEY};

verus! {

/// What a node stands for.
#[derive(PartialEq, Eq, Clone, Copy, Debug)]
pub enum TreeKind {
    Root,
    Folder,
    File,
}

/// What the tree asks of the data behind a node.
///
/// The tree never looks at a concrete kind of data: it reads the key, the
/// texts, the fingerprint and the flags through this trait.
pub trait TreeData {
    /// The key, unique among the nodes that are visible together.
    spec fn spec_key(&self) -> KeyType;

    /// The class of the icon, if the data has one.
    spec fn spec_icon(&self) -> Option<Seq<char>>;

    /// The text shown in the row.
    spec fn spec_title(&self) -> Seq<char>;

    /// The fingerprint of what the row shows.
    spec fn spec_hash(&self) -> HashType;

    /// The flags of the data.
    spec fn spec_flags(&self) -> TreeFlags;

    fn key(&self) -> (key: KeyType)
        ensures
            key == self.spec_key(),
    ;

    fn icon(&self) -> (icon: Option<&str>)
        ensures
            icon is Some == self.spec_icon() is Some,
            icon is Some ==> icon->0@ == self.spec_icon()->0,
    ;

    fn title(&self) -> (title: &str)
        ensures
            title@ == self.spec_title(),
    ;

    fn hash(&self) -> (hash: HashType)
        ensures
            hash == self.spec_hash(),
    ;

    fn flags(&self) -> (flags: TreeFlags)
        ensures
            flags == self.spec_flags(),
    ;

    /// Whether a node with this data can have children.
    fn expandable(&self) -> (expandable: bool)
        ensures
            expandable == self.spec_flags().expandable,
    {
        self.flags().expandable
    }
}

/// A handle to a node of a [`TreeArena`].
#[derive(Clone, Copy, Debug, PartialEq, Eq, Structural)]
pub struct TreeNode {
    /// The place of the node in its arena.
    pub index: usize,
}

impl View for TreeNode {
    type V = int;

    open spec fn view(&self) -> int {
        self.index as int
    }
}

/// What the arena stores of one node: what the node read of its data when
/// it was made, and its place in the tree.
pub struct TreeNodeInner {
    key: KeyType,
    icon: Option<String>,
    title: String,
    hash: HashType,
    expandable: bool,
    parent: usize,
    depth: u16,
    flags: TreeFlags,
    children_len: usize,
    children: KeyMap,
}

impl View for TreeNodeInner {
    type V = NodeModel;

    closed spec fn view(&self) -> NodeModel {
        NodeModel {
            key: self.key,
            icon: match self.icon {
                Some(icon) => Some(icon@),
                None => None,
            },
            title: self.title@,
            hash: self.hash,
            expandable: self.expandable,
            parent: self.parent as int,
            depth: self.depth as int,
            flags: self.flags,
            size: self.children_len as nat,
            kids: map_entries(self.children),
        }
    }
}

impl TreeItem for TreeNodeInner {
    open spec fn spec_key(&self) -> KeyType {
        self@.key
    }

    open spec fn spec_icon(&self) -> Seq<char> {
        match self@.icon {
            Some(icon) => icon,
            None => Seq::empty(),
        }
    }

    open spec fn spec_title(&self) -> Seq<char> {
        self@.title
    }

    open spec fn spec_depth(&self) -> u16 {
        self@.depth as u16
    }

    open spec fn spec_expandable(&self) -> bool {
        self@.expandable
    }

    open spec fn spec_hash(&self) -> HashType {
        self@.hash
    }

    open spec fn spec_expanded(&self) -> bool {
        self@.flags.expanded
    }

    fn key(&self) -> (key: KeyType) {
        self.key
    }

    fn icon(&self) -> (icon: &str) {
        match &self.icon {
            Some(icon) => icon.as_str(),
            None => {
                proof {
                    reveal_strlit("");
                }
                ""
            },
        }
    }

    fn title(&self) -> (title: &str) {
        self.title.as_str()
    }

    fn depth(&self) -> (depth: u16) {
        self.depth
    }

    fn expandable(&self) -> (expandable: bool) {
        self.expandable
    }

    fn hash(&self) -> (hash: HashType) {
        self.hash
    }

    fn expanded(&self) -> (expanded: bool) {
        self.flags.expanded
    }
}

/// The nodes of one or more trees, each found by its [`TreeNode`] handle.
///
/// Nodes are added and never taken away, so a handle stays good for as long
/// as its arena lives.
pub struct TreeArena {
    nodes: Vec<TreeNodeInner>,
}

impl View for TreeArena {
    type V = Seq<NodeModel>;

    closed spec fn view(&self) -> Seq<NodeModel> {
        Seq::new(self.nodes@.len(), |i: int| self.nodes@[i]@)
    }
}

impl TreeArena {
    /// What the arena stores of the node at `index`.
    pub closed spec fn record(&self, index: int) -> TreeNodeInner {
        self.nodes@[index]
    }

    /// The view of the arena shows each record by its own view, and the
    /// number of nodes fits a machine word.
    pub proof fn lemma_records(&self)
        ensures
            self@.len() <= usize::MAX,
            forall|i: int| 0 <= i < self@.len() ==> (#[trigger] self.record(i))@ == self@[i],
    {
        assert(self.nodes.len() == self.nodes@.len());
    }

    /// The arena is a forest as [`tree_ok`] says.
    pub open spec fn wf(&self) -> bool {
        tree_ok(self@)
    }

    /// The handle names a node of the arena.
    pub open spec fn has(&self, node: TreeNode) -> bool {
        node@ < self@.len()
    }

    /// An arena without nodes.
    pub fn new() -> (arena: TreeArena)
        ensures
            arena.wf(),
            arena@.len() == 0,
    {
        TreeArena { nodes: Vec::new() }
    }

    /// The number of nodes.
    pub fn len(&self) -> (len: usize)
        ensures
            len == self@.len(),
    {
        self.nodes.len()
    }

    /// Whether the handle names a node of the arena.
    pub fn contains(&self, node: TreeNode) -> (b: bool)
        ensures
            b == self.has(node),
    {
        node.index < self.nodes.len()
    }

    /// Adds a node without children at the end.
    fn push_leaf<D: TreeData + ?Sized>(
        &mut self,
        data: &D,
        parent: usize,
        depth: u16,
        flags: TreeFlags,
    ) -> (node: TreeNode)
        ensures
            node@ == old(self)@.len(),
            final(self)@ == old(self)@.push(leaf_model(data, parent as int, depth as int, flags)),
    {
        let index = self.nodes.len();
        let icon = match data.icon() {
            Some(icon) => Some(icon.to_owned()),
            None => None,
        };
        let inner = TreeNodeInner {
            key: data.key(),
            icon,
            title: data.title().to_owned(),
            hash: data.hash(),
            expandable: data.expandable(),
            parent,
            depth,
            flags,
            children_len: 0,
            children: map_new(),
        };
        self.nodes.push(inner);
        TreeNode { index }
    }

    /// Puts `children` behind the children of `at` and adds to the size of
    /// `at` the sum of one plus the size of each; returns that sum.
    fn adopt(&mut self, at: usize, children: &Vec<TreeNode>) -> (grown: usize)
        requires
            tree_ok(old(self)@),
            at < old(self)@.len(),
            adoptable(old(self)@, at as int, children@),
            old(self)@[at as int].size + kids_size(old(self)@, entries_of(old(self)@, children@))
                <= usize::MAX,
        ensures
            final(self)@ == built(old(self)@, at as int, children@),
            grown == kids_size(old(self)@, entries_of(old(self)@, children@)),
    {
        let ghost before = self@;
        let ghost added = entries_of(before, children@);
        let mut grown: usize = 0;
        let mut j: usize = 0;
        while j < children.len()
            invariant
                before == old(self)@,
                added == entries_of(before, children@),
                tree_ok(before),
                at < before.len(),
                adoptable(before, at as int, children@),
                before[at as int].size + kids_size(before, added) <= usize::MAX,
                j <= children@.len(),
                grown == kids_size(before, added.take(j as int)),
                self@.len() == before.len(),
                forall|i: int| 0 <= i < before.len() && i != at ==> self@[i] == before[i],
                self@[at as int] == (NodeModel {
                    kids: before[at as int].kids + added.take(j as int),
                    ..before[at as int]
                }),
            decreases children@.len() - j,
        {
            let child = children[j];
            proof {
                assert(added.take(j + 1).drop_last() =~= added.take(j as int));
                assert(added =~= added.take(j + 1) + added.skip(j + 1));
                lemma_kids_size_concat(before, added.take(j + 1), added.skip(j + 1));
                let kids = before[at as int].kids;
                let all = kids + added;
                let now = kids + added.take(j as int);
                lemma_position_of(now, added[j as int].0);
                if position_of(now, added[j as int].0) is Some {
                    let i = position_of(now, added[j as int].0)->0;
                    assert(now[i] == all[i]);
                    assert(all[kids.len() + j] == added[j as int]);
                }
                assert(now.push(added[j as int]) =~= kids + added.take(j + 1));
            }
            let key = self.nodes[child.index].key;
            let size = self.nodes[child.index].children_len;
            grown = grown + 1 + size;
            map_insert(&mut self.nodes[at].children, key, child.index);
            j += 1;
        }
        proof {
            assert(added.take(children@.len() as int) =~= added);
        }
        let size = self.nodes[at].children_len;
        self.nodes[at].children_len = size + grown;
        proof {
            let post = built(before, at as int, children@);
            assert forall|i: int| 0 <= i < before.len() implies self@[i] == post[i] by {
                if i != at && on_path(before, at as int, i) {
                    lemma_on_path_le(before, at as int, i);
                }
            }
        }
        grown
    }
}

impl TreeNode {
    /// Adds a node under `parent`, one level deeper, without children and
    /// with no flag set, that shows what `data` holds. The node is not yet
    /// among the children of `parent`: [`TreeNode::insert`] or
    /// [`TreeNode::build`] puts it there.
    pub fn new<D: TreeData + ?Sized>(arena: &mut TreeArena, parent: TreeNode, data: Box<D>) -> (node:
        TreeNode)
        requires
            old(arena).wf(),
            old(arena).has(parent),
            old(arena)@[parent@].depth < u16::MAX,
        ensures
            final(arena).wf(),
            node@ == old(arena)@.len(),
            final(arena)@ == old(arena)@.push(
                leaf_model(
                    &*data,
                    parent@,
                    old(arena)@[parent@].depth + 1,
                    TreeFlags::spec_empty(),
                ),
            ),
    {
        Self::new_from(arena, parent, &*data)
    }

    /// Adds a node as [`TreeNode::new`] does, for data that stays with the
    /// caller.
    pub fn new_from<D: TreeData + ?Sized>(arena: &mut TreeArena, parent: TreeNode, data: &D) -> (node:
        TreeNode)
        requires
            old(arena).wf(),
            old(arena).has(parent),
            old(arena)@[parent@].depth < u16::MAX,
        ensures
            final(arena).wf(),
            node@ == old(arena)@.len(),
            final(arena)@ == old(arena)@.push(
                leaf_model(data, parent@, old(arena)@[parent@].depth + 1, TreeFlags::spec_empty()),
            ),
    {
        let depth = arena.nodes[parent.index].depth;
        proof {
            lemma_push_ok(
                arena@,
                leaf_model(data, parent@, arena@[parent@].depth + 1, TreeFlags::spec_empty()),
            );
        }
        arena.push_leaf(data, parent.index, depth + 1, TreeFlags::empty())
    }

    /// Adds a root as [`TreeNode::root_with_data`] does, for data that
    /// stays with the caller.
    pub fn new_root_from<D: TreeData + ?Sized>(arena: &mut TreeArena, data: &D) -> (node: TreeNode)
        requires
            old(arena).wf(),
        ensures
            final(arena).wf(),
            node@ == old(arena)@.len(),
            final(arena)@ == old(arena)@.push(
                leaf_model(data, node@, 0, (TreeFlags { root: true, ..TreeFlags::spec_empty() })),
            ),
    {
        let index = arena.nodes.len();
        proof {
            lemma_push_ok(
                arena@,
                leaf_model(
                    data,
                    index as int,
                    0,
                    TreeFlags { root: true, ..TreeFlags::spec_empty() },
                ),
            );
        }
        arena.push_leaf(data, index, 0, TreeFlags::root())
    }

    /// Adds a root with the data of a root sentinel.
    pub fn root(arena: &mut TreeArena) -> (node: TreeNode)
        requires
            old(arena).wf(),
        ensures
            final(arena).wf(),
            node@ == old(arena)@.len(),
            final(arena)@ == old(arena)@.push(
                NodeModel {
                    key: ROOT_KEY,
                    icon: None,
                    title: "ROOT"@,
                    hash: u64::MAX,
                    expandable: true,
                    parent: node@,
                    depth: 0,
                    flags: (TreeFlags { root: true, ..TreeFlags::spec_empty() }),
                    size: 0,
                    kids: Seq::empty(),
                },
            ),
    {
        Self::root_with_data(arena, Box::new(RootData))
    }

    /// Adds a root that shows what `data` holds: a node that is its own
    /// parent, at depth 0, with the flag `root` alone.
    pub fn root_with_data<D: TreeData + ?Sized>(arena: &mut TreeArena, data: Box<D>) -> (node: TreeNode)
        requires
            old(arena).wf(),
        ensures
            final(arena).wf(),
            node@ == old(arena)@.len(),
            final(arena)@ == old(arena)@.push(
                leaf_model(
                    &*data,
                    node@,
                    0,
                    (TreeFlags { root: true, ..TreeFlags::spec_empty() }),
                ),
            ),
    {
        Self::new_root_from(arena, &*data)
    }

    /// What the arena stores of the node.
    pub fn inner(self, arena: &TreeArena) -> (inner: &TreeNodeInner)
        requires
            arena.has(self),
        ensures
            *inner == arena.record(self@),
            inner@ == arena@[self@],
    {
        &arena.nodes[self.index]
    }

    /// The state of the node.
    pub fn flags(self, arena: &TreeArena) -> (flags: TreeFlags)
        requires
            arena.has(self),
        ensures
            flags == arena@[self@].flags,
    {
        arena.nodes[self.index].flags
    }

    /// Whether the node is a root.
    pub fn is_root(self, arena: &TreeArena) -> (b: bool)
        requires
            arena.has(self),
        ensures
            b == arena@[self@].is_root(),
    {
        arena.nodes[self.index].flags.root
    }

    /// The number of nodes below the node, shown or not.
    pub fn children_len(self, arena: &TreeArena) -> (len: usize)
        requires
            arena.has(self),
        ensures
            len == arena@[self@].size,
    {
        arena.nodes[self.index].children_len
    }

    /// The parent of the node; the node itself for a root.
    pub fn parent(self, arena: &TreeArena) -> (parent: TreeNode)
        requires
            arena.has(self),
        ensures
            parent@ == arena@[self@].parent,
    {
        TreeNode { index: arena.nodes[self.index].parent }
    }

    /// The number of children of the node.
    pub fn child_count(self, arena: &TreeArena) -> (count: usize)
        requires
            arena.has(self),
        ensures
            count == arena@[self@].kids.len(),
    {
        map_len(&arena.nodes[self.index].children)
    }

    /// The child at the given place among the children of the node.
    pub fn child_at(self, arena: &TreeArena, offset: usize) -> (child: Option<TreeNode>)
        requires
            arena.has(self),
        ensures
            child == if offset < arena@[self@].kids.len() {
                Some(TreeNode { index: arena@[self@].kids[offset as int].1 })
            } else {
                None
            },
    {
        match map_get_index(&arena.nodes[self.index].children, offset) {
            Some(entry) => Some(TreeNode { index: entry.1 }),
            None => None,
        }
    }

    /// The first child of the node.
    pub fn first_child(self, arena: &TreeArena) -> (child: Option<TreeNode>)
        requires
            arena.has(self),
        ensures
            child == if 0 < arena@[self@].kids.len() {
                Some(TreeNode { index: arena@[self@].kids[0].1 })
            } else {
                None
            },
    {
        self.child_at(arena, 0)
    }

    /// The child of the node that has the given key.
    pub fn get(self, arena: &TreeArena, key: KeyType) -> (child: Option<TreeNode>)
        requires
            arena.has(self),
        ensures
            child == match value_of(arena@[self@].kids, key) {
                Some(index) => Some(TreeNode { index }),
                None => None,
            },
    {
        match map_get(&arena.nodes[self.index].children, key) {
            Some(index) => Some(TreeNode { index }),
            None => None,
        }
    }

    /// Gives the node new flags in place of those it has. Nothing else
    /// changes: what is shown of the tree follows the flags only once the
    /// rows are read anew.
    ///
    /// A root stays a root, and no other node becomes one.
    pub fn set_flags(self, arena: &mut TreeArena, flags: TreeFlags)
        requires
            old(arena).wf(),
            old(arena).has(self),
            flags.root == old(arena)@[self@].flags.root,
        ensures
            final(arena).wf(),
            final(arena)@ == old(arena)@.update(self@, NodeModel { flags, ..old(arena)@[self@] }),
    {
        proof {
            lemma_flags_ok(arena@, self@, flags);
        }
        arena.nodes[self.index].flags = flags;
        proof {
            assert(arena@ =~= old(arena)@.update(self@, NodeModel { flags, ..old(arena)@[self@] }));
        }
    }

    /// Whether the node is part of its tree: whether every node on the way
    /// from it up to its root stands among the children of its parent.
    ///
    /// This is what [`TreeNode::insert`] asks of the node.
    pub fn is_in_tree(self, arena: &TreeArena) -> (b: bool)
        requires
            arena.wf(),
            arena.has(self),
        ensures
            b == in_tree(arena@, self@),
    {
        let ghost nodes = arena@;
        let mut cur = self;
        loop
            invariant
                nodes == arena@,
                arena.wf(),
                arena.has(cur),
                in_tree(nodes, self@) == in_tree(nodes, cur@),
            decreases cur@,
        {
            proof {
                assert(node_ok(nodes, cur@));
            }
            if cur.is_root(arena) {
                return true;
            }
            let parent = cur.parent(arena);
            let found = parent.get(arena, arena.nodes[cur.index].key);
            proof {
                lemma_attached_by_key(nodes, cur@);
            }
            match found {
                Some(node) => {
                    if node.index != cur.index {
                        return false;
                    }
                },
                None => {
                    return false;
                },
            }
            cur = parent;
        }
    }

    /// Whether the node is a root or stands among the children of its
    /// parent. [`TreeNode::build`] is for nodes that are roots or for which
    /// this is not so.
    pub fn is_attached(self, arena: &TreeArena) -> (b: bool)
        requires
            arena.wf(),
            arena.has(self),
        ensures
            b == attached(arena@, self@),
    {
        proof {
            assert(node_ok(arena@, self@));
        }
        if self.is_root(arena) {
            return true;
        }
        proof {
            lemma_attached_by_key(arena@, self@);
        }
        match self.parent(arena).get(arena, arena.nodes[self.index].key) {
            Some(node) => node.index == self.index,
            None => false,
        }
    }

    /// Whether the given nodes can become children of the node, as
    /// [`TreeNode::insert`] and [`TreeNode::build`] ask: each is a node of
    /// the arena that names the node as its parent, and their keys differ
    /// from each other and from those of the children that the node has.
    pub fn adopts(self, arena: &TreeArena, children: &Vec<TreeNode>) -> (b: bool)
        requires
            arena.wf(),
            arena.has(self),
        ensures
            b == adoptable(arena@, self@, children@),
    {
        let ghost nodes = arena@;
        let ghost kids = nodes[self@].kids;
        let ghost added = entries_of(nodes, children@);
        let mut seen = map_new();
        let mut j: usize = 0;
        proof {
            assert(node_ok(nodes, self@));
        }
        while j < children.len()
            invariant
                nodes == arena@,
                kids == nodes[self@].kids,
                added == entries_of(nodes, children@),
                arena.has(self),
                j <= children@.len(),
                forall|k: int| 0 <= k < j ==> kid_ok(nodes, self@, #[trigger] added[k]),
                keys_distinct(kids + added.take(j as int)),
                map_entries(seen) == added.take(j as int),
            decreases children@.len() - j,
        {
            let child = children[j];
            if !arena.contains(child) || child.index <= self.index {
                proof {
                    assert(!kid_ok(nodes, self@, added[j as int]));
                }
                return false;
            }
            if child.parent(arena).index != self.index {
                proof {
                    assert(!kid_ok(nodes, self@, added[j as int]));
                }
                return false;
            }
            let key = child.key(arena);
            let ghost entry = (key, child.index);
            proof {
                assert(added.take(j + 1) =~= added.take(j as int).push(entry));
                lemma_position_of(kids, key);
                lemma_position_of(added.take(j as int), key);
            }
            if self.get(arena, key).is_some() {
                proof {
                    let i = position_of(kids, key)->0;
                    let all = kids + added;
                    assert(all[i] == kids[i]);
                    assert(all[kids.len() + j] == added[j as int]);
                }
                return false;
            }
            if map_insert(&mut seen, key, child.index).is_some() {
                proof {
                    let i = position_of(added.take(j as int), key)->0;
                    let all = kids + added;
                    assert(all[kids.len() + i] == added[i]);
                    assert(all[kids.len() + j] == added[j as int]);
                }
                return false;
            }
            proof {
                let longer = (kids + added.take(j as int)).push(entry);
            }
            j += 1;
        }
        proof {
            assert(added.take(children@.len() as int) =~= added);
        }
        true
    }

    /// Whether the node can take a child for each of the given data, as
    /// [`TreeNode::insert_data`] asks.
    pub fn accepts<D: TreeData>(self, arena: &TreeArena, datas: &Vec<D>) -> (b: bool)
        requires
            arena.wf(),
            arena.has(self),
        ensures
            b == acceptable(arena@, self@, datas@),
    {
        let ghost nodes = arena@;
        let ghost kids = nodes[self@].kids;
        let ghost fresh = entries_for(nodes.len(), datas@);
        if !self.is_in_tree(arena) {
            return false;
        }
        if self.depth(arena) == u16::MAX {
            return false;
        }
        if arena.len() > usize::MAX - datas.len() {
            return false;
        }
        let first = arena.len();
        let mut seen = map_new();
        let mut j: usize = 0;
        proof {
            assert(node_ok(nodes, self@));
        }
        while j < datas.len()
            invariant
                nodes == arena@,
                kids == nodes[self@].kids,
                fresh == entries_for(nodes.len(), datas@),
                arena.has(self),
                first == nodes.len(),
                first + datas@.len() <= usize::MAX,
                j <= datas@.len(),
                keys_distinct(kids + fresh.take(j as int)),
                map_entries(seen) == fresh.take(j as int),
            decreases datas@.len() - j,
        {
            let key = datas[j].key();
            let ghost entry = (key, (first + j) as usize);
            proof {
                assert(fresh.take(j + 1) =~= fresh.take(j as int).push(entry));
                lemma_position_of(kids, key);
                lemma_position_of(fresh.take(j as int), key);
            }
            let known = self.get(arena, key);
            if known.is_some() {
                proof {
                    let i = position_of(kids, key)->0;
                    let all = kids + fresh;
                    assert(all[i] == kids[i]);
                    assert(all[kids.len() + j] == fresh[j as int]);
                }
                return false;
            }
            let twice = map_insert(&mut seen, key, first + j);
            if twice.is_some() {
                proof {
                    let i = position_of(fresh.take(j as int), key)->0;
                    let all = kids + fresh;
                    assert(all[kids.len() + i] == fresh[i]);
                    assert(all[kids.len() + j] == fresh[j as int]);
                }
                return false;
            }
            proof {
                let longer = (kids + fresh.take(j as int)).push(entry);
            }
            j += 1;
        }
        proof {
            assert(fresh.take(datas@.len() as int) =~= fresh);
        }
        true
    }

    /// Makes a child under the node for each of the given data, in their
    /// order, and puts the children under the node as
    /// [`TreeNode::insert`] does. Returns the children.
    pub fn insert_data<D: TreeData>(self, arena: &mut TreeArena, datas: &Vec<D>) -> (children: Vec<
        TreeNode,
    >)
        requires
            old(arena).wf(),
            old(arena).has(self),
            acceptable(old(arena)@, self@, datas@),
        ensures
            final(arena).wf(),
            final(arena)@ == grown(old(arena)@, self@, datas@),
            children@ == handles(old(arena)@.len(), datas@.len()),
    {
        let ghost before = arena@;
        let ghost made = leaves(before, self@, datas@);
        let mut children: Vec<TreeNode> = Vec::new();
        let mut j: usize = 0;
        while j < datas.len()
            invariant
                before == old(arena)@,
                made == leaves(before, self@, datas@),
                arena.wf(),
                before.len() > self@,
                before[self@].depth < u16::MAX,
                before.len() + datas@.len() <= usize::MAX,
                j <= datas@.len(),
                arena@ == before + made.take(j as int),
                children@ == handles(before.len(), j as nat),
            decreases datas@.len() - j,
        {
            let child = TreeNode::new_from(arena, self, &datas[j]);
            children.push(child);
            j += 1;
        }
        proof {
            assert(made.take(datas@.len() as int) =~= made);
            let wide = before + made;
            let added = entries_of(wide, children@);
            assert(added =~= entries_for(before.len(), datas@));
            assert forall|k: int| 0 <= k < before.len() implies (#[trigger] before[k]).parent
                == wide[k].parent && before[k].is_root() == wide[k].is_root() && before[k].kids.len()
                <= wide[k].kids.len() && before[k].kids == wide[k].kids.take(
                before[k].kids.len() as int,
            ) by {}
            lemma_in_tree_longer(before, wide, self@);
        }
        let handed = children.clone();
        self.insert(arena, children);
        handed
    }

    /// The key of the node.
    pub fn key(self, arena: &TreeArena) -> (key: KeyType)
        requires
            arena.has(self),
        ensures
            key == arena@[self@].key,
    {
        arena.nodes[self.index].key
    }

    /// The distance of the node from its root.
    pub fn depth(self, arena: &TreeArena) -> (depth: u16)
        requires
            arena.has(self),
        ensures
            depth == arena@[self@].depth,
    {
        arena.nodes[self.index].depth
    }

    /// The fingerprint of what the row of the node shows.
    pub fn hash(self, arena: &TreeArena) -> (hash: HashType)
        requires
            arena.has(self),
        ensures
            hash == arena@[self@].hash,
    {
        arena.nodes[self.index].hash
    }

    /// Whether the node can have children.
    pub fn expandable(self, arena: &TreeArena) -> (expandable: bool)
        requires
            arena.has(self),
        ensures
            expandable == arena@[self@].expandable,
    {
        arena.nodes[self.index].expandable
    }

    /// Whether the children of the node are shown.
    pub fn expanded(self, arena: &TreeArena) -> (expanded: bool)
        requires
            arena.has(self),
        ensures
            expanded == arena@[self@].flags.expanded,
    {
        arena.nodes[self.index].flags.expanded
    }

    /// The text shown in the row of the node.
    pub fn title(self, arena: &TreeArena) -> (title: &str)
        requires
            arena.has(self),
        ensures
            title@ == arena@[self@].title,
    {
        arena.nodes[self.index].title.as_str()
    }

    /// Puts `children` under the node, behind the children it has, and
    /// brings the sizes up to date: the size of the node, and of every node
    /// above it that is no root, grows by the sum of one plus the size of
    /// each child.
    ///
    /// The node has to be part of its tree, so that the sizes above it stay
    /// right; a node that stands under no parent yet takes its children
    /// with [`TreeNode::build`].
    pub fn insert(self, arena: &mut TreeArena, children: Vec<TreeNode>)
        requires
            old(arena).wf(),
            in_tree(old(arena)@, self@),
            adoptable(old(arena)@, self@, children@),
        ensures
            final(arena).wf(),
            final(arena)@ == inserted(old(arena)@, self@, children@),
    {
        let ghost before = arena@;
        proof {
            arena.lemma_records();
            assert(on_path(before, self@, self@));
            assert forall|a: int| on_path(before, self@, a) implies before[a].size + kids_size(
                before,
                entries_of(before, children@),
            ) <= usize::MAX by {
                lemma_growth_fits(before, self@, children@, a);
            }
        }
        let grown = arena.adopt(self.index, &children);
        let mut cur = self.index;
        while !arena.nodes[cur].flags.root
            invariant
                before == old(arena)@,
                tree_ok(before),
                cur < before.len(),
                arena@.len() == before.len(),
                on_path(before, self@, cur as int),
                arena@ == inserted_above(before, self@, children@, cur as int),
                grown == kids_size(before, entries_of(before, children@)),
                forall|a: int| on_path(before, self@, a) ==> before[a].size + grown <= usize::MAX,
            decreases cur,
        {
            proof {
                assert(node_ok(before, cur as int));
                assert(arena@[cur as int].flags == before[cur as int].flags);
                lemma_on_path_parent(before, self@, cur as int);
                lemma_on_path_le(before, self@, cur as int);
            }
            let parent = arena.nodes[cur].parent;
            proof {
                assert(arena@[parent as int].flags == before[parent as int].flags);
            }
            let ghost mid = arena@;
            if !arena.nodes[parent].flags.root {
                let size = arena.nodes[parent].children_len;
                arena.nodes[parent].children_len = size + grown;
            }
            proof {
                let next = inserted_above(before, self@, children@, parent as int);
                assert forall|i: int| 0 <= i < before.len() implies arena@[i] == next[i] by {
                    if i != parent {
                        assert(arena@[i] == mid[i]);
                    }
                    if i != self@ && on_path(before, self@, i) && i < cur {
                        lemma_on_path_below(before, self@, cur as int, i);
                        lemma_on_path_le(before, parent as int, i);
                    }
                }
            }
            cur = parent;
        }
        proof {
            let post = inserted(before, self@, children@);
            assert(node_ok(before, cur as int));
            assert(arena@[cur as int].flags == before[cur as int].flags);
            assert forall|i: int| 0 <= i < before.len() implies arena@[i] == post[i] by {
                if on_path(before, self@, i) {
                    lemma_on_path_above_root(before, self@, cur as int, i);
                }
            }
            assert(arena@ =~= post);
            lemma_inserted_ok(before, self@, children@);
        }
    }

    /// Puts `children` under the node, behind the children it has, and adds
    /// to the size of the node the sum of one plus the size of each child.
    /// Nothing above the node changes.
    ///
    /// This is for a tree that is built from the leaves up: the node has to
    /// be a root, or stand under no parent yet.
    pub fn build(self, arena: &mut TreeArena, children: Vec<TreeNode>) -> (node: TreeNode)
        requires
            old(arena).wf(),
            old(arena).has(self),
            old(arena)@[self@].is_root() || detached(old(arena)@, self@),
            adoptable(old(arena)@, self@, children@),
        ensures
            node == self,
            final(arena).wf(),
            final(arena)@ == built(old(arena)@, self@, children@),
    {
        proof {
            arena.lemma_records();
            lemma_growth_fits(arena@, self@, children@, self@);
            lemma_built_ok(arena@, self@, children@);
        }
        let _ = arena.adopt(self.index, &children);
        self
    }

    /// The map from keys to rows that the tree under the node shows: each
    /// row under the key of its node, in the order of the rows.
    ///
    /// Where two rows have one key, the first keeps its place and holds the
    /// node of the second.
    pub fn flatten(self, arena: &TreeArena) -> (list: KeyMap)
        requires
            arena.wf(),
            arena.has(self),
        ensures
            map_entries(list) == projection(arena@, self@),
    {
        let mut list = map_new();
        let _ = self.flatten_internal(arena, &mut list);
        list
    }

    /// The map that [`TreeNode::flatten`] gives, and whether no two of the
    /// rows have the same key.
    pub fn flatten_checked(self, arena: &TreeArena) -> (flat: (KeyMap, bool))
        requires
            arena.wf(),
            arena.has(self),
        ensures
            map_entries(flat.0) == projection(arena@, self@),
            flat.1 == keys_unique(arena@, self@),
    {
        let mut list = map_new();
        let unique = self.flatten_internal(arena, &mut list);
        (list, unique)
    }

    /// Puts the rows that the tree under the node shows into `list`, and
    /// says whether each went in under a key that `list` did not hold.
    fn flatten_internal(self, arena: &TreeArena, list: &mut KeyMap) -> (fresh: bool)
        requires
            arena.wf(),
            arena.has(self),
        ensures
            map_entries(*final(list)) == projected(
                map_entries(*old(list)),
                arena@,
                rows(arena@, self@),
            ),
            fresh == clean(map_entries(*old(list)), arena@, rows(arena@, self@)),
        decreases arena@.len() - self@,
    {
        let mut fresh = true;
        let ghost nodes = arena@;
        let ghost start = map_entries(*list);
        let inner = &arena.nodes[self.index];
        let ghost head = if nodes[self@].is_root() {
            Seq::<int>::empty()
        } else {
            seq![self@]
        };
        if !inner.flags.root {
            let previous = map_insert(list, inner.key, self.index);
            fresh = previous.is_none();
            proof {
                assert(clean(start, nodes, head.drop_last()));
                assert(projected(start, nodes, head.drop_last()) == start);
            }
        }
        if !inner.flags.root && !inner.flags.expanded {
            return fresh;
        }
        let len = map_len(&inner.children);
        let mut j: usize = 0;
        while j < len
            invariant
                nodes == arena@,
                arena.wf(),
                arena.has(self),
                inner@ == nodes[self@],
                len == nodes[self@].kids.len(),
                j <= len,
                map_entries(*list) == projected(
                    start,
                    nodes,
                    head + rows_below(nodes, self@, j as nat),
                ),
                fresh == clean(start, nodes, head + rows_below(nodes, self@, j as nat)),
            decreases len - j,
        {
            let entry = map_get_index(&inner.children, j);
            let child = TreeNode { index: entry.unwrap().1 };
            proof {
                assert(node_ok(nodes, self@));
                assert(node_ok(nodes, child@));
                assert(head + rows_below(nodes, self@, (j + 1) as nat) =~= (head + rows_below(
                    nodes,
                    self@,
                    j as nat,
                )) + subtree_rows(nodes, child@));
                lemma_projected_concat(
                    start,
                    nodes,
                    head + rows_below(nodes, self@, j as nat),
                    subtree_rows(nodes, child@),
                );
                lemma_clean_concat(
                    start,
                    nodes,
                    head + rows_below(nodes, self@, j as nat),
                    subtree_rows(nodes, child@),
                );
            }
            let below = child.flatten_internal(arena, list);
            fresh = fresh && below;
            j += 1;
        }
        fresh
    }
}

} // verus!
