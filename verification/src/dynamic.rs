//! The controller of a tree: it keeps the tree and the rows that the tree
//! shows, takes the requests to expand and to collapse, and says whom to
//! tell of a change.

use vstd::prelude::*;

use futures::channel::oneshot::Receiver;

use crate::changes::{
    keys_fresh, lemma_collapse_unique, lemma_flags_same_rows, lemma_grown_hidden, lemma_grown_root,
    with_flags,
};
use crate::error::TreeError;
use crate::flags::TreeFlags;
use crate::item::TreeItem;
use crate::model::{acceptable, grown, leaf_model, node_ok, tree_ok, NodeModel};
use crate::node::{TreeArena, TreeData, TreeNode, TreeNodeInner};
use crate::ordered_map::{
    lemma_position_of, map_entries, map_get, map_get_index, map_len, position_of, value_of, Entry,
    KeyMap,
};
use crate::projection::{keyed, keys_unique, lemma_clean_keyed, projection, rows};
use crate::provider::{TreeExpandResult, TreeProvider};
use crate::subscribers::{numbers, still_there, without, Subscribers, Subscription};
use crate::view::TreeController;
use crate::visible::{lemma_rows_are_the_shown, shown};
use crate::KeyType;

verus! {

/// Who wants to hear of changes to the tree.
pub trait TreeSubscriber {
    /// The rows have changed: read them all anew.
    fn update_all(&self);

    /// The row with the given key has changed.
    fn update_item(&self, key: KeyType);
}

/// What the subscribers of a tree have to be told after a request.
#[derive(Clone, Copy, Debug, PartialEq, Eq, Structural)]
pub enum TreeUpdate {
    /// Nothing changed.
    Nothing,
    /// The row with the given key changed; the rows are the same.
    Item(KeyType),
    /// The rows were read anew.
    All,
}

impl TreeUpdate {
    /// Tells the subscriber of the update through the hook that is made
    /// for it.
    pub fn deliver<S: TreeSubscriber + ?Sized>(&self, subscriber: &S) {
        match self {
            TreeUpdate::Nothing => {},
            TreeUpdate::Item(key) => subscriber.update_item(*key),
            TreeUpdate::All => subscriber.update_all(),
        }
    }
}

/// The flags of a node at rest: a node is not loading and expanded at
/// once, and an expanded node has had its children loaded.
pub open spec fn steady(flags: TreeFlags) -> bool {
    &&& !(flags.loading && flags.expanded)
    &&& flags.expanded ==> flags.ready
}

/// What became of a request to expand or to collapse a node.
#[verifier::reject_recursive_types(D)]
pub enum ExpandOutcome<D> {
    /// The node cannot have children: nothing changed.
    Ignored,
    /// The node was expanded and is now collapsed. Its children stay with
    /// it.
    Collapsed,
    /// The node is now expanded.
    Expanded,
    /// The children of the node are being loaded. The node is the one to
    /// name when the channel has answered.
    Loading(TreeNode, Receiver<Vec<D>>),
}

impl<D> ExpandOutcome<D> {
    /// What the subscribers have to be told after a request for `key` that
    /// came out like this.
    pub open spec fn spec_update(&self, key: KeyType) -> TreeUpdate {
        match self {
            ExpandOutcome::Ignored => TreeUpdate::Nothing,
            ExpandOutcome::Collapsed => TreeUpdate::All,
            ExpandOutcome::Expanded => TreeUpdate::All,
            ExpandOutcome::Loading(_, _) => TreeUpdate::Item(key),
        }
    }

    /// What the subscribers have to be told after a request for `key` that
    /// came out like this: nothing where nothing changed, of the one row
    /// where the node began to load, and of all rows where they were read
    /// anew.
    pub fn update(&self, key: KeyType) -> (update: TreeUpdate)
        ensures
            update == self.spec_update(key),
    {
        match self {
            ExpandOutcome::Ignored => TreeUpdate::Nothing,
            ExpandOutcome::Collapsed => TreeUpdate::All,
            ExpandOutcome::Expanded => TreeUpdate::All,
            ExpandOutcome::Loading(_, _) => TreeUpdate::Item(key),
        }
    }
}

/// The flags of a node that has been given its children and is shown with
/// them.
pub open spec fn shown_loaded(flags: TreeFlags) -> TreeFlags {
    TreeFlags { expanded: true, ready: true, ..flags }
}

/// The flags of a node that has been given its children and is not shown
/// with them.
pub open spec fn hidden_loaded(flags: TreeFlags) -> TreeFlags {
    TreeFlags { ready: true, ..flags }
}

/// The children that come for `at` can be taken: the tree has room for
/// them, their keys differ from each other and from those of the children
/// that `at` has, and, where `at` is the root, from the keys of the rows.
pub open spec fn welcome<D: TreeData>(
    nodes: Seq<NodeModel>,
    root: int,
    at: int,
    datas: Seq<D>,
) -> bool {
    &&& acceptable(nodes, at, datas)
    &&& at == root ==> keys_fresh(projection(nodes, root), datas)
}

/// The tree after the children of `at` have come, where `base` are the
/// flags of `at` without those that loading sets.
///
/// Children that cannot be taken leave the tree as it was, but for the
/// flags of `at`. Else the children are made and go under `at`, which is
/// then ready. It is also expanded, unless two shown nodes would then have
/// the same key: in that case it stays collapsed.
pub open spec fn loaded<D: TreeData>(
    nodes: Seq<NodeModel>,
    root: int,
    at: int,
    datas: Seq<D>,
    base: TreeFlags,
) -> Seq<NodeModel> {
    if !welcome(nodes, root, at, datas) {
        with_flags(nodes, at, base)
    } else if keys_unique(with_flags(grown(nodes, at, datas), at, shown_loaded(base)), root) {
        with_flags(grown(nodes, at, datas), at, shown_loaded(base))
    } else {
        with_flags(grown(nodes, at, datas), at, hidden_loaded(base))
    }
}

/// The children that came for `at` are shown.
pub open spec fn loaded_shown<D: TreeData>(
    nodes: Seq<NodeModel>,
    root: int,
    at: int,
    datas: Seq<D>,
    base: TreeFlags,
) -> bool {
    &&& welcome(nodes, root, at, datas)
    &&& keys_unique(with_flags(grown(nodes, at, datas), at, shown_loaded(base)), root)
}

/// The flag `loading` alone.
pub open spec fn only_loading() -> TreeFlags {
    TreeFlags { loading: true, ..TreeFlags::spec_empty() }
}

/// What an answer of the provider makes of a tree and of the request that
/// asked for the children of `at`.
///
/// Children that are known are taken as [`loaded`] says, and the request
/// has expanded the node if they are shown and has failed if not. Where the
/// children are being loaded, the node is marked as loading and the request
/// hands on the channel.
pub open spec fn applied<D: TreeData>(
    nodes: Seq<NodeModel>,
    root: int,
    at: int,
    result: TreeExpandResult<D>,
    after: Seq<NodeModel>,
    outcome: Result<ExpandOutcome<D>, TreeError>,
) -> bool {
    match result {
        TreeExpandResult::Ready(datas) => {
            &&& after == loaded(nodes, root, at, datas@, nodes[at].flags)
            &&& if loaded_shown(nodes, root, at, datas@, nodes[at].flags) {
                outcome is Ok && outcome->Ok_0 is Expanded
            } else {
                outcome == Err::<ExpandOutcome<D>, TreeError>(TreeError::InvariantViolation)
            }
        },
        TreeExpandResult::Loading(job) => {
            &&& after == with_flags(
                nodes,
                at,
                nodes[at].flags.spec_symmetric_difference(only_loading()),
            )
            &&& outcome is Ok
            &&& outcome->Ok_0 == ExpandOutcome::Loading(TreeNode { index: at as usize }, job)
        },
    }
}

/// The controller of a tree that gets its nodes from a provider.
pub struct DynamicTree<P: TreeProvider> {
    arena: TreeArena,
    root: TreeNode,
    flat: KeyMap,
    provider: P,
    subscribers: Subscribers,
}

impl<P: TreeProvider> DynamicTree<P> {
    /// The nodes of the tree.
    pub closed spec fn nodes(&self) -> Seq<NodeModel> {
        self.arena@
    }

    /// The arena that holds the nodes.
    pub closed spec fn store(&self) -> TreeArena {
        self.arena
    }

    /// The index of the root.
    pub closed spec fn top(&self) -> int {
        self.root@
    }

    /// The rows that the controller holds, each under the key of its node.
    pub closed spec fn entries(&self) -> Seq<Entry> {
        map_entries(self.flat)
    }

    /// The provider of the tree.
    pub closed spec fn source(&self) -> P {
        self.provider
    }

    /// Those who want to hear of changes.
    pub closed spec fn listeners(&self) -> Subscribers {
        self.subscribers
    }

    /// The tree is well formed and has the one root, the rows that the
    /// controller holds are those that the tree shows, no two of them have
    /// the same key, and the flags of every node are at rest.
    pub open spec fn wf(&self) -> bool {
        &&& self.nodes() == self.store()@
        &&& self.listeners().wf()
        &&& tree_ok(self.nodes())
        &&& 0 <= self.top() < self.nodes().len()
        &&& self.nodes()[self.top()].is_root()
        &&& self.entries() == projection(self.nodes(), self.top())
        &&& keys_unique(self.nodes(), self.top())
        &&& forall|i: int|
            0 <= i < self.nodes().len() ==> steady((#[trigger] self.nodes()[i]).flags) && (
            self.nodes()[i].is_root() ==> i == self.top())
    }

    /// The node that a key names: the root for the key of the root, else
    /// the node of the row with that key.
    pub open spec fn resolve(&self, key: KeyType) -> Option<int> {
        if key == self.nodes()[self.top()].key {
            Some(self.top())
        } else {
            match value_of(self.entries(), key) {
                Some(index) => Some(index as int),
                None => None,
            }
        }
    }

    /// The controller is `before` after the request to expand or collapse
    /// the node that `key` names, and `outcome` is what the request came
    /// to.
    ///
    /// A key that names no node is an error, and so is a request for a node
    /// that is loading: nothing changes. A node that cannot have children
    /// is left alone. An expanded node is collapsed. A node whose children
    /// have been loaded before is expanded, unless two shown nodes would
    /// then have the same key: that is an error, and nothing changes. For
    /// any other node the provider has been asked, and its answer applied
    /// as [`applied`] says.
    pub open spec fn requested(
        &self,
        before: &DynamicTree<P>,
        key: KeyType,
        outcome: Result<ExpandOutcome<P::Data>, TreeError>,
    ) -> bool {
        match before.resolve(key) {
            None => {
                &&& outcome == Err::<ExpandOutcome<P::Data>, TreeError>(TreeError::Bounds)
                &&& self.nodes() == before.nodes()
            },
            Some(at) => {
                let node = before.nodes()[at];
                if !node.expandable {
                    &&& outcome is Ok && outcome->Ok_0 is Ignored
                    &&& self.nodes() == before.nodes()
                } else if node.flags.loading {
                    &&& outcome == Err::<ExpandOutcome<P::Data>, TreeError>(
                        TreeError::InvariantViolation,
                    )
                    &&& self.nodes() == before.nodes()
                } else if node.flags.expanded {
                    &&& outcome is Ok && outcome->Ok_0 is Collapsed
                    &&& self.nodes() == with_flags(
                        before.nodes(),
                        at,
                        TreeFlags { expanded: false, ..node.flags },
                    )
                } else if node.flags.ready {
                    let open = with_flags(
                        before.nodes(),
                        at,
                        TreeFlags { expanded: true, ..node.flags },
                    );
                    if keys_unique(open, before.top()) {
                        &&& outcome is Ok && outcome->Ok_0 is Expanded
                        &&& self.nodes() == open
                    } else {
                        &&& outcome == Err::<ExpandOutcome<P::Data>, TreeError>(
                            TreeError::InvariantViolation,
                        )
                        &&& self.nodes() == before.nodes()
                    }
                } else {
                    exists|result: TreeExpandResult<P::Data>|
                        applied(before.nodes(), before.top(), at, result, self.nodes(), outcome)
                }
            },
        }
    }

    /// The rows are the shown nodes, each under its key.
    pub proof fn lemma_entries(&self)
        requires
            self.wf(),
        ensures
            self.entries() == keyed(self.nodes(), rows(self.nodes(), self.top())),
            self.entries().len() == rows(self.nodes(), self.top()).len(),
            self.nodes().len() <= usize::MAX,
            forall|k: int|
                0 <= k < self.entries().len() ==> {
                    &&& (#[trigger] self.entries()[k]).1 == rows(self.nodes(), self.top())[k]
                    &&& self.entries()[k].0 == self.nodes()[self.entries()[k].1 as int].key
                    &&& 0 <= self.entries()[k].1 < self.nodes().len()
                    &&& shown(self.nodes(), self.top(), self.entries()[k].1 as int)
                    &&& !self.nodes()[self.entries()[k].1 as int].is_root()
                },
    {
        let seen = rows(self.nodes(), self.top());
        self.store().lemma_records();
        lemma_clean_keyed(self.nodes(), seen);
        lemma_rows_are_the_shown(self.nodes(), self.top());
        assert forall|k: int| 0 <= k < self.entries().len() implies {
            &&& (#[trigger] self.entries()[k]).1 == seen[k]
            &&& self.entries()[k].0 == self.nodes()[self.entries()[k].1 as int].key
            &&& 0 <= self.entries()[k].1 < self.nodes().len()
            &&& shown(self.nodes(), self.top(), self.entries()[k].1 as int)
            &&& !self.nodes()[self.entries()[k].1 as int].is_root()
        } by {
            assert(shown(self.nodes(), self.top(), seen[k]));
            assert(node_ok(self.nodes(), seen[k]));
        }
    }

    /// A tree that holds the root that the provider gives, and nothing
    /// else.
    pub fn new(provider: P) -> (tree: DynamicTree<P>)
        ensures
            tree.wf(),
            tree.nodes().len() == 1,
            tree.top() == 0,
            tree.nodes()[0].flags == (TreeFlags { root: true, ..TreeFlags::spec_empty() }),
            tree.nodes()[0].kids.len() == 0,
            tree.entries().len() == 0,
            tree.listeners()@.len() == 0,
            tree.source() == provider,
    {
        let data = provider.root();
        Self::with_root(provider, data)
    }

    /// A tree that holds a root with the given data, and nothing else.
    pub fn with_root(provider: P, data: P::Data) -> (tree: DynamicTree<P>)
        ensures
            tree.wf(),
            tree.nodes() == seq![
                leaf_model(&data, 0, 0, (TreeFlags { root: true, ..TreeFlags::spec_empty() })),
            ],
            tree.top() == 0,
            tree.entries().len() == 0,
            tree.listeners()@.len() == 0,
            tree.source() == provider,
    {
        let mut arena = TreeArena::new();
        let root = TreeNode::new_root_from(&mut arena, &data);
        let flat = root.flatten(&arena);
        DynamicTree { arena, root, flat, provider, subscribers: Subscribers::new() }
    }

    /// A tree that holds the nodes of the given arena under the given
    /// root, for a tree that was built before it got its controller.
    ///
    /// Fails where the node is not the one root of the arena, where the
    /// flags of a node are not at rest, or where two shown nodes have the
    /// same key.
    pub fn with_tree(provider: P, arena: TreeArena, root: TreeNode) -> (tree: Result<
        DynamicTree<P>,
        TreeError,
    >)
        requires
            arena.wf(),
            arena.has(root),
        ensures
            tree is Ok <==> {
                &&& keys_unique(arena@, root@)
                &&& forall|i: int|
                    0 <= i < arena@.len() ==> steady((#[trigger] arena@[i]).flags) && (
                    arena@[i].is_root() <==> i == root@)
            },
            tree is Err ==> tree->Err_0 == TreeError::InvariantViolation,
            tree is Ok ==> {
                &&& tree->Ok_0.wf()
                &&& tree->Ok_0.nodes() == arena@
                &&& tree->Ok_0.top() == root@
                &&& tree->Ok_0.listeners()@.len() == 0
            },
    {
        let mut i: usize = 0;
        while i < arena.len()
            invariant
                i <= arena@.len(),
                arena.has(root),
                forall|k: int|
                    0 <= k < i ==> steady((#[trigger] arena@[k]).flags) && (arena@[k].is_root()
                        <==> k == root@),
            decreases arena@.len() - i,
        {
            let node = TreeNode { index: i };
            let flags = node.flags(&arena);
            let steady = !(flags.loading && flags.expanded) && (!flags.expanded || flags.ready);
            if !steady || flags.root != (i == root.index) {
                return Err(TreeError::InvariantViolation);
            }
            i += 1;
        }
        let (flat, unique) = root.flatten_checked(&arena);
        if !unique {
            return Err(TreeError::InvariantViolation);
        }
        Ok(DynamicTree { arena, root, flat, provider, subscribers: Subscribers::new() })
    }

    /// The root of the tree.
    pub fn root(&self) -> (root: TreeNode)
        ensures
            root@ == self.top(),
    {
        self.root
    }

    /// The provider of the tree.
    pub fn provider(&self) -> (provider: &P)
        ensures
            *provider == self.source(),
    {
        &self.provider
    }

    /// The arena that holds the nodes of the tree.
    pub fn arena(&self) -> (arena: &TreeArena)
        ensures
            *arena == self.store(),
    {
        &self.arena
    }

    /// The number of rows.
    pub fn count(&self) -> (count: usize)
        requires
            self.wf(),
        ensures
            count == rows(self.nodes(), self.top()).len(),
    {
        proof {
            self.lemma_entries();
        }
        map_len(&self.flat)
    }

    /// The node of the row with the given index.
    pub fn row(&self, index: usize) -> (node: Result<TreeNode, TreeError>)
        requires
            self.wf(),
        ensures
            index < rows(self.nodes(), self.top()).len() ==> node is Ok && node->Ok_0@ == rows(
                self.nodes(),
                self.top(),
            )[index as int],
            index >= rows(self.nodes(), self.top()).len() ==> node == Err::<TreeNode, TreeError>(
                TreeError::Bounds,
            ),
            node is Ok ==> self.store().has(node->Ok_0),
    {
        proof {
            self.lemma_entries();
        }
        match map_get_index(&self.flat, index) {
            Some(entry) => Ok(TreeNode { index: entry.1 }),
            None => Err(TreeError::Bounds),
        }
    }

    /// The node that a key names: the root for the key of the root, else
    /// the node of the row with that key.
    pub fn get_item(&self, key: KeyType) -> (node: Result<TreeNode, TreeError>)
        requires
            self.wf(),
        ensures
            match self.resolve(key) {
                Some(index) => node is Ok && node->Ok_0@ == index && 0 <= index
                    < self.nodes().len(),
                None => node == Err::<TreeNode, TreeError>(TreeError::Bounds),
            },
    {
        proof {
            self.lemma_entries();
            lemma_position_of(self.entries(), key);
        }
        if self.root.key(&self.arena) == key {
            Ok(self.root)
        } else {
            match map_get(&self.flat, key) {
                Some(index) => Ok(TreeNode { index }),
                None => Err(TreeError::Bounds),
            }
        }
    }

    /// Reads the rows of the tree anew.
    pub fn flatten(&mut self)
        requires
            old(self).tree_in_order(),
        ensures
            final(self).wf(),
            final(self).store() == old(self).store(),
            final(self).nodes() == old(self).nodes(),
            final(self).top() == old(self).top(),
            final(self).entries() == projection(old(self).nodes(), old(self).top()),
            final(self).listeners() == old(self).listeners(),
    {
        self.flat = self.root.flatten(&self.arena);
    }

    /// All that [`DynamicTree::wf`] asks of the tree and of the subscribers.
    /// Of the rows that the controller holds it asks nothing: they may be
    /// those of an earlier state of the tree, and
    /// [`DynamicTree::flatten`] brings them up to date.
    pub open spec fn tree_in_order(&self) -> bool {
        &&& self.nodes() == self.store()@
        &&& self.listeners().wf()
        &&& tree_ok(self.nodes())
        &&& 0 <= self.top() < self.nodes().len()
        &&& self.nodes()[self.top()].is_root()
        &&& keys_unique(self.nodes(), self.top())
        &&& forall|i: int|
            0 <= i < self.nodes().len() ==> steady((#[trigger] self.nodes()[i]).flags) && (
            self.nodes()[i].is_root() ==> i == self.top())
    }

    /// Whether none of the keys of the given data is the key of a row.
    fn fresh_keys(&self, datas: &Vec<P::Data>) -> (b: bool)
        ensures
            b == keys_fresh(self.entries(), datas@),
    {
        let mut j: usize = 0;
        while j < datas.len()
            invariant
                j <= datas@.len(),
                forall|k: int|
                    0 <= k < j ==> position_of(self.entries(), (#[trigger] datas@[k]).spec_key())
                        is None,
            decreases datas@.len() - j,
        {
            if map_get(&self.flat, datas[j].key()).is_some() {
                return false;
            }
            j += 1;
        }
        true
    }

    /// Takes the children that have come for a node, where `base` are the
    /// flags of the node without those that loading sets. Says whether the
    /// children are shown.
    fn load(&mut self, node: TreeNode, datas: &Vec<P::Data>, base: TreeFlags) -> (shown: bool)
        requires
            old(self).wf(),
            0 <= node@ < old(self).nodes().len(),
            !old(self).nodes()[node@].flags.expanded,
            base.root == old(self).nodes()[node@].flags.root,
            !base.expanded,
            !base.loading,
        ensures
            final(self).wf(),
            final(self).top() == old(self).top(),
            final(self).listeners() == old(self).listeners(),
            final(self).nodes() == loaded(
                old(self).nodes(),
                old(self).top(),
                node@,
                datas@,
                base,
            ),
            shown == loaded_shown(old(self).nodes(), old(self).top(), node@, datas@, base),
    {
        let ghost before = self.nodes();
        let ghost root = self.top();
        let welcome = node.accepts(&self.arena, datas) && (node.index != self.root.index
            || self.fresh_keys(datas));
        if !welcome {
            proof {
                lemma_flags_same_rows(before, root, node@, base);
            }
            node.set_flags(&mut self.arena, base);
            return false;
        }
        let ghost wide = grown(before, node@, datas@);
        let ghost open = with_flags(wide, node@, shown_loaded(base));
        let ghost shut = with_flags(wide, node@, hidden_loaded(base));
        let _ = node.insert_data(&mut self.arena, datas);
        let mut flags = base;
        flags.insert(TreeFlags::expanded());
        flags.insert(TreeFlags::ready());
        node.set_flags(&mut self.arena, flags);
        let (flat, unique) = self.root.flatten_checked(&self.arena);
        proof {
            if node@ == root {
                lemma_grown_root(before, root, datas@);
                lemma_flags_same_rows(wide, root, node@, shown_loaded(base));
            }
        }
        if unique {
            self.flat = flat;
            return true;
        }
        let mut flags = base;
        flags.insert(TreeFlags::ready());
        proof {
            lemma_grown_hidden(before, root, node@, datas@);
            lemma_flags_same_rows(wide, root, node@, hidden_loaded(base));
            assert(with_flags(open, node@, hidden_loaded(base)) =~= shut);
        }
        node.set_flags(&mut self.arena, flags);
        false
    }

    /// Takes the request to expand or collapse the node that `key` names.
    ///
    /// A key that names no node is an error, and so is a request for a node
    /// that is loading. A node that cannot have children is left alone. An
    /// expanded node is collapsed. A node whose children have been loaded
    /// before is expanded again, unless two shown nodes would then have the
    /// same key: that is an error, and the node stays collapsed. For any
    /// other node the provider is asked for the children, and its answer is
    /// applied as [`DynamicTree::apply_expand_result`] says.
    ///
    /// The rows are read anew after every change of the tree.
    pub fn expand(&mut self, key: KeyType) -> (outcome: Result<ExpandOutcome<P::Data>, TreeError>)
        requires
            old(self).wf(),
        ensures
            final(self).wf(),
            final(self).top() == old(self).top(),
            final(self).listeners() == old(self).listeners(),
            final(self).requested(old(self), key, outcome),
    {
        let ghost before = self.nodes();
        let ghost root = self.top();
        let node = match self.get_item(key) {
            Ok(node) => node,
            Err(error) => {
                return Err(error);
            },
        };
        let mut flags = node.flags(&self.arena);
        if !node.expandable(&self.arena) {
            return Ok(ExpandOutcome::Ignored);
        }
        if flags.contains(TreeFlags::loading()) {
            return Err(TreeError::InvariantViolation);
        }
        if flags.contains(TreeFlags::expanded()) {
            flags.remove(TreeFlags::expanded());
            proof {
                lemma_collapse_unique(before, root, node@, flags);
            }
            node.set_flags(&mut self.arena, flags);
            self.flat = self.root.flatten(&self.arena);
            return Ok(ExpandOutcome::Collapsed);
        }
        if flags.contains(TreeFlags::ready()) {
            let shut = flags;
            flags.insert(TreeFlags::expanded());
            node.set_flags(&mut self.arena, flags);
            let (flat, unique) = self.root.flatten_checked(&self.arena);
            if unique {
                self.flat = flat;
                return Ok(ExpandOutcome::Expanded);
            }
            node.set_flags(&mut self.arena, shut);
            proof {
                assert(self.arena@ =~= before);
            }
            return Err(TreeError::InvariantViolation);
        }
        let result = self.provider.expand(node.inner(&self.arena));
        self.apply_expand_result(node, result)
    }

    /// Applies the answer that the provider gave when it was asked for the
    /// children of a node that is neither expanded, nor ready, nor loading.
    ///
    /// Children that are known are made and put under the node, and the
    /// node is ready and expanded. Children that cannot be taken are an
    /// error and change nothing: that is so where the tree has no room for
    /// them, or where their keys do not differ from each other, from those
    /// of the children that the node has and, under the root, from those of
    /// the rows. Where the children have been taken and two shown nodes
    /// would have the same key with the node expanded, the node is ready
    /// and stays collapsed, which is an error too.
    ///
    /// Where the children are being loaded, the node is marked as loading
    /// and the rows stay as they are.
    pub fn apply_expand_result(&mut self, node: TreeNode, result: TreeExpandResult<P::Data>) -> (outcome:
        Result<ExpandOutcome<P::Data>, TreeError>)
        requires
            old(self).wf(),
            0 <= node@ < old(self).nodes().len(),
            !old(self).nodes()[node@].flags.expanded,
            !old(self).nodes()[node@].flags.loading,
        ensures
            final(self).wf(),
            final(self).top() == old(self).top(),
            final(self).listeners() == old(self).listeners(),
            applied(
                old(self).nodes(),
                old(self).top(),
                node@,
                result,
                final(self).nodes(),
                outcome,
            ),
    {
        let ghost before = self.nodes();
        let ghost root = self.top();
        let mut flags = node.flags(&self.arena);
        match result {
            TreeExpandResult::Ready(datas) => {
                if self.load(node, &datas, flags) {
                    Ok(ExpandOutcome::Expanded)
                } else {
                    Err(TreeError::InvariantViolation)
                }
            },
            TreeExpandResult::Loading(job) => {
                flags.toggle(TreeFlags::loading());
                proof {
                    lemma_flags_same_rows(before, root, node@, flags);
                }
                node.set_flags(&mut self.arena, flags);
                Ok(ExpandOutcome::Loading(node, job))
            },
        }
    }

    /// Takes what the channel of a loading node has answered: the data of
    /// the children, or nothing where loading failed. Returns what the
    /// subscribers have to be told, and whether the children are shown.
    ///
    /// An answer for a node that the tree does not hold, or that is not
    /// loading, is dropped: nothing changes. So an answer for a node that
    /// is expanded already puts no child under it a second time. Else the
    /// node is no longer loading. Where loading failed, the node stays
    /// collapsed and not ready. Where the children came, they are taken as [`loaded`] says.
    /// The subscribers are to be told of all rows where the children are
    /// shown, and else of the one row, together with the error.
    pub fn finish_expand(&mut self, node: TreeNode, answer: Option<Vec<P::Data>>) -> (told: (
        TreeUpdate,
        Result<(), TreeError>,
    ))
        requires
            old(self).wf(),
        ensures
            final(self).wf(),
            final(self).top() == old(self).top(),
            final(self).listeners() == old(self).listeners(),
            node@ < old(self).nodes().len() && old(self).nodes()[node@].flags.expanded ==> told == (
                TreeUpdate::Nothing,
                Ok::<(), TreeError>(()),
            ) && final(self).nodes() == old(self).nodes() && final(self).entries() == old(
                self,
            ).entries(),
            if !(node@ < old(self).nodes().len() && old(self).nodes()[node@].flags.loading) {
                &&& told == (TreeUpdate::Nothing, Ok::<(), TreeError>(()))
                &&& final(self).nodes() == old(self).nodes()
            } else {
                let base = TreeFlags { loading: false, ..old(self).nodes()[node@].flags };
                let one = TreeUpdate::Item(old(self).nodes()[node@].key);
                match answer {
                    None => {
                        &&& told == (one, Err::<(), TreeError>(TreeError::Expansion))
                        &&& final(self).nodes() == with_flags(old(self).nodes(), node@, base)
                    },
                    Some(datas) => {
                        &&& final(self).nodes() == loaded(
                            old(self).nodes(),
                            old(self).top(),
                            node@,
                            datas@,
                            base,
                        )
                        &&& told == if loaded_shown(
                            old(self).nodes(),
                            old(self).top(),
                            node@,
                            datas@,
                            base,
                        ) {
                            (TreeUpdate::All, Ok::<(), TreeError>(()))
                        } else {
                            (one, Err::<(), TreeError>(TreeError::InvariantViolation))
                        }
                    },
                }
            },
    {
        let ghost before = self.nodes();
        let ghost root = self.top();
        if !self.arena.contains(node) {
            return (TreeUpdate::Nothing, Ok(()));
        }
        let mut flags = node.flags(&self.arena);
        if !flags.contains(TreeFlags::loading()) {
            return (TreeUpdate::Nothing, Ok(()));
        }
        flags.remove(TreeFlags::loading());
        let key = node.key(&self.arena);
        match answer {
            None => {
                proof {
                    lemma_flags_same_rows(before, root, node@, flags);
                }
                node.set_flags(&mut self.arena, flags);
                (TreeUpdate::Item(key), Err(TreeError::Expansion))
            },
            Some(datas) => {
                if self.load(node, &datas, flags) {
                    (TreeUpdate::All, Ok(()))
                } else {
                    (TreeUpdate::Item(key), Err(TreeError::InvariantViolation))
                }
            },
        }
    }

    /// Takes a click on the row that `key` names: the request to expand or
    /// collapse goes as [`DynamicTree::expand`] says, and the node of the
    /// row is handed back for the caller to act on.
    pub fn handle_click(&mut self, key: KeyType) -> (clicked: Result<
        (ExpandOutcome<P::Data>, TreeNode),
        TreeError,
    >)
        requires
            old(self).wf(),
        ensures
            final(self).wf(),
            final(self).top() == old(self).top(),
            final(self).listeners() == old(self).listeners(),
            match clicked {
                Ok(done) => final(self).requested(old(self), key, Ok(done.0)) && old(
                    self,
                ).resolve(key) == Some(done.1@),
                Err(error) => final(self).requested(
                    old(self),
                    key,
                    Err::<ExpandOutcome<P::Data>, TreeError>(error),
                ),
            },
    {
        let node = match self.get_item(key) {
            Ok(node) => node,
            Err(error) => {
                return Err(error);
            },
        };
        match self.expand(key) {
            Ok(outcome) => Ok((outcome, node)),
            Err(error) => Err(error),
        }
    }

    /// Takes a new subscriber into the list and returns the number by
    /// which it is known. Fails when the numbers have run out.
    pub fn add_subscriber(&mut self) -> (id: Result<usize, TreeError>)
        requires
            old(self).wf(),
        ensures
            final(self).wf(),
            final(self).store() == old(self).store(),
            final(self).nodes() == old(self).nodes(),
            final(self).top() == old(self).top(),
            old(self).listeners().next_id() < usize::MAX ==> {
                &&& id == Ok::<usize, TreeError>(old(self).listeners().next_id())
                &&& final(self).listeners()@ == old(self).listeners()@.push(
                    Subscription { id: old(self).listeners().next_id(), alive: true },
                )
            },
            old(self).listeners().next_id() == usize::MAX ==> {
                &&& id == Err::<usize, TreeError>(TreeError::InvariantViolation)
                &&& final(self).listeners()@ == old(self).listeners()@
            },
    {
        self.subscribers.add()
    }

    /// Notes that the subscriber with the given number is gone.
    pub fn remove_subscriber(&mut self, id: usize)
        requires
            old(self).wf(),
        ensures
            final(self).wf(),
            final(self).store() == old(self).store(),
            final(self).nodes() == old(self).nodes(),
            final(self).top() == old(self).top(),
            final(self).listeners()@ == without(old(self).listeners()@, id),
    {
        self.subscribers.remove(id)
    }

    /// Says whom to tell of an update: every subscriber that is still
    /// there, in the order in which they came, or nobody where nothing
    /// changed. The entries of subscribers that are gone are dropped on the
    /// way.
    pub fn notify(&mut self, update: TreeUpdate) -> (called: Vec<usize>)
        requires
            old(self).wf(),
        ensures
            final(self).wf(),
            final(self).store() == old(self).store(),
            final(self).nodes() == old(self).nodes(),
            final(self).top() == old(self).top(),
            update == TreeUpdate::Nothing ==> called@.len() == 0 && final(self).listeners()@ == old(
                self,
            ).listeners()@,
            update != TreeUpdate::Nothing ==> called@ == numbers(
                still_there(old(self).listeners()@),
            ) && final(self).listeners()@ == still_there(old(self).listeners()@),
    {
        match update {
            TreeUpdate::Nothing => Vec::new(),
            _ => self.subscribers.notify(),
        }
    }
}

impl<P: TreeProvider> TreeController for DynamicTree<P> {
    type Item = TreeNodeInner;

    type Outcome = (ExpandOutcome<P::Data>, TreeNode);

    open spec fn valid(&self) -> bool {
        self.wf()
    }

    open spec fn items(&self) -> Seq<TreeNodeInner> {
        Seq::new(
            rows(self.nodes(), self.top()).len(),
            |k: int| self.store().record(rows(self.nodes(), self.top())[k]),
        )
    }

    fn item(&self, index: usize) -> (item: Result<&TreeNodeInner, TreeError>) {
        match self.row(index) {
            Ok(node) => Ok(node.inner(&self.arena)),
            Err(error) => Err(error),
        }
    }

    fn count(&self) -> (count: usize) {
        proof {
            self.lemma_entries();
            self.store().lemma_records();
            let seen = rows(self.nodes(), self.top());
            lemma_clean_keyed(self.nodes(), seen);
            assert forall|i: int, j: int| 0 <= i < j < self.items().len() implies (
            #[trigger] self.items()[i]).spec_key() != (#[trigger] self.items()[j]).spec_key() by {
                assert(keyed(self.nodes(), seen)[i].0 == self.items()[i].spec_key());
                assert(keyed(self.nodes(), seen)[j].0 == self.items()[j].spec_key());
            }
        }
        DynamicTree::count(self)
    }

    fn handle_click(&mut self, key: KeyType) -> (clicked: Result<
        (ExpandOutcome<P::Data>, TreeNode),
        TreeError,
    >)
        ensures
            final(self).top() == old(self).top(),
            final(self).listeners() == old(self).listeners(),
            match clicked {
                Ok(done) => final(self).requested(old(self), key, Ok(done.0)) && old(
                    self,
                ).resolve(key) == Some(done.1@),
                Err(error) => final(self).requested(
                    old(self),
                    key,
                    Err::<ExpandOutcome<P::Data>, TreeError>(error),
                ),
            },
    {
        DynamicTree::handle_click(self, key)
    }

    fn add_subscriber(&mut self) -> (id: Result<usize, TreeError>)
        ensures
            final(self).store() == old(self).store(),
            final(self).nodes() == old(self).nodes(),
            final(self).top() == old(self).top(),
            old(self).listeners().next_id() < usize::MAX ==> {
                &&& id == Ok::<usize, TreeError>(old(self).listeners().next_id())
                &&& final(self).listeners()@ == old(self).listeners()@.push(
                    Subscription { id: old(self).listeners().next_id(), alive: true },
                )
            },
            old(self).listeners().next_id() == usize::MAX ==> {
                &&& id == Err::<usize, TreeError>(TreeError::InvariantViolation)
                &&& final(self).listeners()@ == old(self).listeners()@
            },
    {
        DynamicTree::add_subscriber(self)
    }
}

} // verus!
