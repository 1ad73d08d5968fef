use std::cell::RefCell;

use futures::channel::oneshot::{channel, Sender};

use virtual_tree::dynamic::{DynamicTree, ExpandOutcome, TreeSubscriber, TreeUpdate};
use virtual_tree::error::TreeError;
use virtual_tree::flags::TreeFlags;
use virtual_tree::item::TreeItem;
use virtual_tree::node::{TreeArena, TreeNode, TreeNodeInner};
use virtual_tree::plain::PlainTreeData;
use virtual_tree::provider::{TreeExpandResult, TreeProvider};
use virtual_tree::view::TreeController;
use virtual_tree::{KeyType, ROOT_KEY};

fn plain(key: KeyType, title: &str, expandable: bool) -> PlainTreeData {
    PlainTreeData {
        key,
        icon: None,
        title: title.into(),
        flags: if expandable { TreeFlags::expandable() } else { TreeFlags::empty() },
    }
}

/// Answers at once: the children of key `k` have the keys `10 k + 1` and
/// `10 k + 2`, the root has the children 1, 2 and 3.
struct Eager {
    asked: RefCell<Vec<KeyType>>,
}

impl Eager {
    fn new() -> Self {
        Eager { asked: RefCell::new(Vec::new()) }
    }
}

fn children_of(key: KeyType) -> Vec<PlainTreeData> {
    if key == ROOT_KEY {
        vec![plain(1, "1", true), plain(2, "2", true), plain(3, "3", false)]
    } else {
        vec![
            plain(10 * key + 1, &format!("{}.1", key), true),
            plain(10 * key + 2, &format!("{}.2", key), false),
        ]
    }
}

impl TreeProvider for Eager {
    type Data = PlainTreeData;

    fn root(&self) -> PlainTreeData {
        plain(ROOT_KEY, "ROOT", true)
    }

    fn expand(&self, node: &TreeNodeInner) -> TreeExpandResult<PlainTreeData> {
        self.asked.borrow_mut().push(node.key());
        TreeExpandResult::Ready(children_of(node.key()))
    }
}

/// Answers later, and keeps the sending ends of the channels.
struct Lazy {
    pending: RefCell<Vec<(KeyType, Sender<Vec<PlainTreeData>>)>>,
}

impl TreeProvider for Lazy {
    type Data = PlainTreeData;

    fn root(&self) -> PlainTreeData {
        plain(ROOT_KEY, "ROOT", true)
    }

    fn expand(&self, node: &TreeNodeInner) -> TreeExpandResult<PlainTreeData> {
        let (sender, receiver) = channel();
        self.pending.borrow_mut().push((node.key(), sender));
        TreeExpandResult::Loading(receiver)
    }
}

/// Answers at once with what it was given.
struct Fixed {
    children: RefCell<Vec<Vec<PlainTreeData>>>,
}

impl TreeProvider for Fixed {
    type Data = PlainTreeData;

    fn root(&self) -> PlainTreeData {
        plain(ROOT_KEY, "ROOT", true)
    }

    fn expand(&self, _node: &TreeNodeInner) -> TreeExpandResult<PlainTreeData> {
        TreeExpandResult::Ready(self.children.borrow_mut().remove(0))
    }
}

fn keys<P: TreeProvider>(tree: &DynamicTree<P>) -> Vec<KeyType> {
    (0..tree.count()).map(|index| tree.item(index).unwrap().key()).collect()
}

fn expanded<D>(outcome: Result<ExpandOutcome<D>, TreeError>) -> bool {
    matches!(outcome, Ok(ExpandOutcome::Expanded))
}

fn collapsed<D>(outcome: Result<ExpandOutcome<D>, TreeError>) -> bool {
    matches!(outcome, Ok(ExpandOutcome::Collapsed))
}

#[test]
fn new_tree_has_no_rows() {
    let tree = DynamicTree::new(Eager::new());
    assert_eq!(tree.count(), 0);
    assert!(matches!(tree.item(0), Err(TreeError::Bounds)));
    assert_eq!(tree.row(0), Err(TreeError::Bounds));
    assert_eq!(tree.root().index, 0);
    assert_eq!(tree.arena().len(), 1);
    assert_eq!(tree.get_item(ROOT_KEY), Ok(tree.root()));
    assert_eq!(tree.get_item(1), Err(TreeError::Bounds));
}

#[test]
fn item_past_the_last_row_is_out_of_bounds() {
    let mut tree = DynamicTree::new(Eager::new());
    assert!(expanded(tree.expand(ROOT_KEY)));
    assert_eq!(tree.count(), 3);
    assert_eq!(tree.item(2).unwrap().key(), 3);
    assert!(matches!(tree.item(tree.count()), Err(TreeError::Bounds)));
    assert!(matches!(tree.item(usize::MAX), Err(TreeError::Bounds)));
}

#[test]
fn first_expansion_asks_the_provider_and_shows_the_children() {
    let mut tree = DynamicTree::new(Eager::new());
    assert!(expanded(tree.expand(ROOT_KEY)));
    assert_eq!(keys(&tree), vec![1, 2, 3]);
    assert!(expanded(tree.expand(1)));
    assert_eq!(keys(&tree), vec![1, 11, 12, 2, 3]);
    assert!(expanded(tree.expand(11)));
    assert_eq!(keys(&tree), vec![1, 11, 111, 112, 12, 2, 3]);
    let node = tree.get_item(11).unwrap();
    let flags = node.flags(tree.arena());
    assert!(flags.contains(TreeFlags::expanded()));
    assert!(flags.contains(TreeFlags::ready()));
    assert!(!flags.contains(TreeFlags::loading()));
    let item = tree.item(2).unwrap();
    assert_eq!(item.key(), 111);
    assert_eq!(item.title(), "11.1");
    assert_eq!(item.depth(), 3);
    assert_eq!(item.icon(), "");
    assert!(item.expandable());
    assert!(!item.expanded());
    assert!(tree.item(1).unwrap().expanded());
    assert_eq!(item.hash(), fxhash::hash64(&(&111usize, &"11.1".to_string())));
    let one = tree.get_item(1).unwrap();
    assert_eq!(one.children_len(tree.arena()), 4);
    assert_eq!(tree.root().children_len(tree.arena()), 3);
}

#[test]
fn expand_of_an_unknown_key_is_out_of_bounds() {
    let mut tree = DynamicTree::new(Eager::new());
    assert!(matches!(tree.expand(5), Err(TreeError::Bounds)));
    assert!(expanded(tree.expand(ROOT_KEY)));
    assert!(matches!(tree.expand(11), Err(TreeError::Bounds)));
    assert_eq!(keys(&tree), vec![1, 2, 3]);
}

#[test]
fn expand_of_a_leaf_is_ignored() {
    let mut tree = DynamicTree::new(Eager::new());
    assert!(expanded(tree.expand(ROOT_KEY)));
    let outcome = tree.expand(3).unwrap();
    assert!(matches!(outcome, ExpandOutcome::Ignored));
    assert_eq!(outcome.update(3), TreeUpdate::Nothing);
    assert_eq!(keys(&tree), vec![1, 2, 3]);
    assert_eq!(*tree.provider_asked(), vec![ROOT_KEY]);
}

trait Asked {
    fn provider_asked(&self) -> std::cell::Ref<'_, Vec<KeyType>>;
}

impl Asked for DynamicTree<Eager> {
    fn provider_asked(&self) -> std::cell::Ref<'_, Vec<KeyType>> {
        self.provider().asked.borrow()
    }
}

#[test]
fn collapse_then_expand_shows_the_same_rows_without_asking_again() {
    let mut tree = DynamicTree::new(Eager::new());
    assert!(expanded(tree.expand(ROOT_KEY)));
    assert!(expanded(tree.expand(1)));
    assert!(expanded(tree.expand(11)));
    let before = keys(&tree);
    let nodes = tree.arena().len();
    let outcome = tree.expand(1).unwrap();
    assert!(matches!(outcome, ExpandOutcome::Collapsed));
    assert_eq!(outcome.update(1), TreeUpdate::All);
    assert_eq!(keys(&tree), vec![1, 2, 3]);
    let flags = tree.get_item(1).unwrap().flags(tree.arena());
    assert!(flags.contains(TreeFlags::ready()));
    assert!(!flags.contains(TreeFlags::expanded()));
    let outcome = tree.expand(1).unwrap();
    assert!(matches!(outcome, ExpandOutcome::Expanded));
    assert_eq!(outcome.update(1), TreeUpdate::All);
    assert_eq!(keys(&tree), before);
    assert_eq!(tree.arena().len(), nodes);
    assert_eq!(*tree.provider_asked(), vec![ROOT_KEY, 1, 11]);
}

#[test]
fn collapse_keeps_the_children() {
    let mut tree = DynamicTree::new(Eager::new());
    assert!(expanded(tree.expand(ROOT_KEY)));
    assert!(expanded(tree.expand(2)));
    let node = tree.get_item(2).unwrap();
    assert!(collapsed(tree.expand(2)));
    assert_eq!(node.child_count(tree.arena()), 2);
    assert_eq!(node.children_len(tree.arena()), 2);
    assert_eq!(tree.count(), 3);
}

#[test]
fn collapsing_the_root_leaves_its_rows() {
    let mut tree = DynamicTree::new(Eager::new());
    assert!(expanded(tree.expand(ROOT_KEY)));
    assert!(collapsed(tree.expand(ROOT_KEY)));
    assert_eq!(keys(&tree), vec![1, 2, 3]);
    assert!(expanded(tree.expand(ROOT_KEY)));
    assert_eq!(keys(&tree), vec![1, 2, 3]);
    assert_eq!(*tree.provider_asked(), vec![ROOT_KEY]);
}

#[test]
fn pending_expansion_marks_the_node_and_leaves_the_rows() {
    let mut tree = DynamicTree::new(Lazy { pending: RefCell::new(Vec::new()) });
    let outcome = tree.expand(ROOT_KEY).unwrap();
    assert_eq!(outcome.update(ROOT_KEY), TreeUpdate::Item(ROOT_KEY));
    let node = match outcome {
        ExpandOutcome::Loading(node, _job) => node,
        _ => panic!("the provider answers later"),
    };
    assert_eq!(node, tree.root());
    assert!(node.flags(tree.arena()).contains(TreeFlags::loading()));
    assert!(!node.flags(tree.arena()).contains(TreeFlags::expanded()));
    assert_eq!(tree.count(), 0);

    let told = tree.finish_expand(node, Some(children_of(ROOT_KEY)));
    assert_eq!(told, (TreeUpdate::All, Ok(())));
    assert_eq!(tree.count(), 3);
    assert_eq!(keys(&tree), vec![1, 2, 3]);
    let flags = node.flags(tree.arena());
    assert!(!flags.contains(TreeFlags::loading()));
    assert!(flags.contains(TreeFlags::expanded()));
    assert!(flags.contains(TreeFlags::ready()));
}

#[test]
fn resolution_adds_exactly_the_children() {
    let mut tree = DynamicTree::new(Lazy { pending: RefCell::new(Vec::new()) });
    let root = tree.root();
    assert!(matches!(tree.expand(ROOT_KEY), Ok(ExpandOutcome::Loading(_, _))));
    tree.finish_expand(root, Some(children_of(ROOT_KEY)));
    let before = tree.count();
    let node = match tree.expand(2).unwrap() {
        ExpandOutcome::Loading(node, _job) => node,
        _ => panic!("the provider answers later"),
    };
    assert_eq!(tree.count(), before);
    let told = tree.finish_expand(node, Some(children_of(2)));
    assert_eq!(told, (TreeUpdate::All, Ok(())));
    assert_eq!(tree.count(), before + 2);
    assert_eq!(keys(&tree), vec![1, 2, 21, 22, 3]);
    assert_eq!(node.children_len(tree.arena()), 2);
}

#[test]
fn two_nodes_can_load_at_once() {
    let mut tree = DynamicTree::new(Lazy { pending: RefCell::new(Vec::new()) });
    let root = tree.root();
    tree.expand(ROOT_KEY).unwrap();
    tree.finish_expand(root, Some(children_of(ROOT_KEY)));
    let one = tree.get_item(1).unwrap();
    let two = tree.get_item(2).unwrap();
    assert!(matches!(tree.expand(1), Ok(ExpandOutcome::Loading(_, _))));
    assert!(matches!(tree.expand(2), Ok(ExpandOutcome::Loading(_, _))));
    assert!(one.flags(tree.arena()).contains(TreeFlags::loading()));
    assert!(two.flags(tree.arena()).contains(TreeFlags::loading()));
    assert_eq!(tree.finish_expand(two, Some(children_of(2))), (TreeUpdate::All, Ok(())));
    assert_eq!(keys(&tree), vec![1, 2, 21, 22, 3]);
    assert_eq!(tree.finish_expand(one, Some(children_of(1))), (TreeUpdate::All, Ok(())));
    assert_eq!(keys(&tree), vec![1, 11, 12, 2, 21, 22, 3]);
    assert_eq!(tree.provider().pending.borrow().len(), 3);
}

#[test]
fn expanding_a_loading_node_again_is_rejected() {
    let mut tree = DynamicTree::new(Lazy { pending: RefCell::new(Vec::new()) });
    assert!(matches!(tree.expand(ROOT_KEY), Ok(ExpandOutcome::Loading(_, _))));
    assert!(matches!(tree.expand(ROOT_KEY), Err(TreeError::InvariantViolation)));
    assert!(tree.root().flags(tree.arena()).contains(TreeFlags::loading()));
    assert_eq!(tree.provider().pending.borrow().len(), 1);
}

#[test]
fn failed_loading_leaves_the_node_collapsed_and_not_ready() {
    let mut tree = DynamicTree::new(Lazy { pending: RefCell::new(Vec::new()) });
    let root = tree.root();
    tree.expand(ROOT_KEY).unwrap();
    tree.finish_expand(root, Some(children_of(ROOT_KEY)));
    let node = tree.get_item(1).unwrap();
    tree.expand(1).unwrap();
    let told = tree.finish_expand(node, None);
    assert_eq!(told, (TreeUpdate::Item(1), Err(TreeError::Expansion)));
    let flags = node.flags(tree.arena());
    assert!(!flags.contains(TreeFlags::loading()));
    assert!(!flags.contains(TreeFlags::expanded()));
    assert!(!flags.contains(TreeFlags::ready()));
    assert_eq!(keys(&tree), vec![1, 2, 3]);
    // the node can be asked for again
    assert!(matches!(tree.expand(1), Ok(ExpandOutcome::Loading(_, _))));
    assert_eq!(tree.provider().pending.borrow().len(), 3);
}

#[test]
fn an_answer_for_a_node_that_is_not_loading_is_dropped() {
    let mut tree = DynamicTree::new(Eager::new());
    assert!(expanded(tree.expand(ROOT_KEY)));
    assert!(expanded(tree.expand(1)));
    let node = tree.get_item(1).unwrap();
    let before = keys(&tree);
    let nodes = tree.arena().len();
    let told = tree.finish_expand(node, Some(children_of(1)));
    assert_eq!(told, (TreeUpdate::Nothing, Ok(())));
    assert_eq!(keys(&tree), before);
    assert_eq!(tree.arena().len(), nodes);
    assert_eq!(node.child_count(tree.arena()), 2);
    let told = tree.finish_expand(TreeNode { index: 1000 }, None);
    assert_eq!(told, (TreeUpdate::Nothing, Ok(())));
    assert_eq!(keys(&tree), before);
}

#[test]
fn an_answer_that_comes_twice_is_taken_once() {
    let mut tree = DynamicTree::new(Lazy { pending: RefCell::new(Vec::new()) });
    let root = tree.root();
    tree.expand(ROOT_KEY).unwrap();
    assert_eq!(tree.finish_expand(root, Some(children_of(ROOT_KEY))), (TreeUpdate::All, Ok(())));
    assert_eq!(
        tree.finish_expand(root, Some(children_of(ROOT_KEY))),
        (TreeUpdate::Nothing, Ok(()))
    );
    assert_eq!(keys(&tree), vec![1, 2, 3]);
    assert_eq!(root.child_count(tree.arena()), 3);
}

#[test]
fn an_answer_for_a_row_that_is_hidden_meanwhile_is_taken_and_stays_hidden() {
    let mut tree = DynamicTree::new(Lazy { pending: RefCell::new(Vec::new()) });
    let root = tree.root();
    tree.expand(ROOT_KEY).unwrap();
    tree.finish_expand(root, Some(children_of(ROOT_KEY)));
    let one = tree.get_item(1).unwrap();
    tree.expand(1).unwrap();
    tree.finish_expand(one, Some(children_of(1)));
    assert_eq!(keys(&tree), vec![1, 11, 12, 2, 3]);
    let eleven = match tree.expand(11).unwrap() {
        ExpandOutcome::Loading(node, _job) => node,
        _ => panic!("the provider answers later"),
    };
    assert!(collapsed(tree.expand(1)));
    assert_eq!(keys(&tree), vec![1, 2, 3]);
    let told = tree.finish_expand(eleven, Some(children_of(11)));
    assert_eq!(told, (TreeUpdate::All, Ok(())));
    assert_eq!(keys(&tree), vec![1, 2, 3]);
    assert_eq!(eleven.child_count(tree.arena()), 2);
    assert_eq!(one.children_len(tree.arena()), 4);
    assert!(matches!(tree.expand(1), Ok(ExpandOutcome::Expanded)));
    assert_eq!(keys(&tree), vec![1, 11, 111, 112, 12, 2, 3]);
}

#[test]
fn children_with_a_key_twice_are_rejected() {
    let provider = Fixed { children: RefCell::new(vec![vec![plain(1, "a", false), plain(1, "b", false)]]) };
    let mut tree = DynamicTree::new(provider);
    assert!(matches!(tree.expand(ROOT_KEY), Err(TreeError::InvariantViolation)));
    assert_eq!(tree.count(), 0);
    assert_eq!(tree.arena().len(), 1);
    assert_eq!(tree.root().flags(tree.arena()), TreeFlags::root());
}

#[test]
fn children_that_would_show_a_key_twice_stay_hidden() {
    let provider = Fixed {
        children: RefCell::new(vec![
            vec![plain(1, "1", true), plain(2, "2", false)],
            vec![plain(2, "again", false), plain(5, "5", false)],
        ]),
    };
    let mut tree = DynamicTree::new(provider);
    assert!(expanded(tree.expand(ROOT_KEY)));
    assert!(matches!(tree.expand(1), Err(TreeError::InvariantViolation)));
    assert_eq!(keys(&tree), vec![1, 2]);
    let node = tree.get_item(1).unwrap();
    let flags = node.flags(tree.arena());
    assert!(flags.contains(TreeFlags::ready()));
    assert!(!flags.contains(TreeFlags::expanded()));
    assert_eq!(node.child_count(tree.arena()), 2);
    // the children are there, and showing them is refused again
    assert!(matches!(tree.expand(1), Err(TreeError::InvariantViolation)));
    assert_eq!(keys(&tree), vec![1, 2]);
}

#[test]
fn root_children_with_a_shown_key_are_rejected() {
    let mut arena = TreeArena::new();
    let root = TreeNode::root(&mut arena);
    let one = TreeNode::new(&mut arena, root, Box::new(plain(1, "1", true)));
    let seven = TreeNode::new(&mut arena, one, Box::new(plain(7, "7", false)));
    one.build(&mut arena, vec![seven]);
    root.build(&mut arena, vec![one]);
    let mut flags = one.flags(&arena);
    flags.insert(TreeFlags::expanded());
    flags.insert(TreeFlags::ready());
    one.set_flags(&mut arena, flags);
    let provider = Lazy { pending: RefCell::new(Vec::new()) };
    let mut tree = DynamicTree::with_tree(provider, arena, root).ok().unwrap();
    assert_eq!(keys(&tree), vec![1, 7]);
    assert!(matches!(tree.expand(ROOT_KEY), Ok(ExpandOutcome::Loading(_, _))));
    let told = tree.finish_expand(root, Some(vec![plain(7, "clash", false)]));
    assert_eq!(told, (TreeUpdate::Item(ROOT_KEY), Err(TreeError::InvariantViolation)));
    assert_eq!(keys(&tree), vec![1, 7]);
    assert_eq!(root.child_count(tree.arena()), 1);
    assert!(!root.flags(tree.arena()).contains(TreeFlags::loading()));
    assert!(!root.flags(tree.arena()).contains(TreeFlags::ready()));
    // children with fresh keys are taken
    assert!(matches!(tree.expand(ROOT_KEY), Ok(ExpandOutcome::Loading(_, _))));
    let told = tree.finish_expand(root, Some(vec![plain(8, "fresh", false)]));
    assert_eq!(told, (TreeUpdate::All, Ok(())));
    assert_eq!(keys(&tree), vec![1, 7, 8]);
}

#[test]
fn flatten_reads_the_rows_that_the_tree_shows() {
    let mut tree = DynamicTree::new(Eager::new());
    tree.flatten();
    assert_eq!(tree.count(), 0);
    assert!(expanded(tree.expand(ROOT_KEY)));
    assert!(expanded(tree.expand(2)));
    tree.flatten();
    assert_eq!(keys(&tree), vec![1, 2, 21, 22, 3]);
    assert_eq!(tree.row(2), Ok(tree.get_item(21).unwrap()));
    assert_eq!(tree.arena().len(), 6);
}

#[test]
fn click_expands_and_names_the_node() {
    let mut tree = DynamicTree::new(Eager::new());
    assert!(expanded(tree.expand(ROOT_KEY)));
    let (outcome, node) = tree.handle_click(2).unwrap();
    assert!(matches!(outcome, ExpandOutcome::Expanded));
    assert_eq!(node.key(tree.arena()), 2);
    assert_eq!(keys(&tree), vec![1, 2, 21, 22, 3]);
    let (outcome, node) = TreeController::handle_click(&mut tree, 3).unwrap();
    assert!(matches!(outcome, ExpandOutcome::Ignored));
    assert_eq!(node.title(tree.arena()), "3");
    assert!(matches!(tree.handle_click(99), Err(TreeError::Bounds)));
}

#[test]
fn static_tree_gets_a_controller() {
    let mut arena = TreeArena::new();
    let root = TreeNode::root(&mut arena);
    let a = TreeNode::new(&mut arena, root, Box::new(plain(1, "a", true)));
    let b = TreeNode::new(&mut arena, a, Box::new(plain(2, "b", false)));
    a.build(&mut arena, vec![b]);
    root.build(&mut arena, vec![a]);
    let mut tree = DynamicTree::with_tree(root, arena, root).ok().unwrap();
    assert_eq!(keys(&tree), vec![1]);
    assert!(expanded(tree.expand(1)));
    assert_eq!(keys(&tree), vec![1, 2]);
    assert!(collapsed(tree.expand(1)));
    assert_eq!(keys(&tree), vec![1]);
}

#[test]
fn static_tree_with_a_key_shown_twice_gets_no_controller() {
    let mut arena = TreeArena::new();
    let root = TreeNode::root(&mut arena);
    let a = TreeNode::new(&mut arena, root, Box::new(plain(1, "a", false)));
    let b = TreeNode::new(&mut arena, root, Box::new(plain(2, "b", false)));
    root.build(&mut arena, vec![a, b]);
    let second = TreeNode::root(&mut arena);
    assert!(matches!(
        DynamicTree::with_tree(root, arena, root),
        Err(TreeError::InvariantViolation)
    ));
    let _ = second;

    let mut arena = TreeArena::new();
    let root = TreeNode::root(&mut arena);
    let a = TreeNode::new(&mut arena, root, Box::new(plain(1, "a", true)));
    root.build(&mut arena, vec![a]);
    let mut flags = a.flags(&arena);
    flags.insert(TreeFlags::expanded());
    a.set_flags(&mut arena, flags);
    // expanded without ever having been loaded
    assert!(matches!(
        DynamicTree::with_tree(root, arena, root),
        Err(TreeError::InvariantViolation)
    ));
}

struct Counter {
    all: RefCell<usize>,
    items: RefCell<Vec<KeyType>>,
}

impl TreeSubscriber for Counter {
    fn update_all(&self) {
        *self.all.borrow_mut() += 1;
    }

    fn update_item(&self, key: usize) {
        self.items.borrow_mut().push(key);
    }
}

#[test]
fn updates_reach_the_hook_made_for_them() {
    let counter = Counter { all: RefCell::new(0), items: RefCell::new(Vec::new()) };
    TreeUpdate::Nothing.deliver(&counter);
    TreeUpdate::All.deliver(&counter);
    TreeUpdate::Item(4).deliver(&counter);
    TreeUpdate::All.deliver(&counter);
    assert_eq!(*counter.all.borrow(), 2);
    assert_eq!(*counter.items.borrow(), vec![4]);
}

#[test]
fn subscribers_that_are_gone_are_dropped_at_the_next_notification() {
    let mut tree = DynamicTree::new(Eager::new());
    let first = tree.add_subscriber().unwrap();
    let second = TreeController::add_subscriber(&mut tree).unwrap();
    let third = tree.add_subscriber().unwrap();
    assert_eq!((first, second, third), (0, 1, 2));
    assert_eq!(tree.notify(TreeUpdate::All), vec![0, 1, 2]);
    tree.remove_subscriber(second);
    assert_eq!(tree.notify(TreeUpdate::Nothing), Vec::<usize>::new());
    assert_eq!(tree.notify(TreeUpdate::Item(1)), vec![0, 2]);
    tree.remove_subscriber(first);
    tree.remove_subscriber(17);
    assert_eq!(tree.notify(TreeUpdate::All), vec![2]);
    let fourth = tree.add_subscriber().unwrap();
    assert_eq!(fourth, 3);
    assert_eq!(tree.notify(TreeUpdate::All), vec![2, 3]);
}
