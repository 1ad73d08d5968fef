use virtual_tree::error::TreeError;
use virtual_tree::flags::TreeFlags;
use virtual_tree::node::{TreeArena, TreeData, TreeKind, TreeNode};
use virtual_tree::plain::PlainTreeData;
use virtual_tree::root::RootData;
use virtual_tree::subscribers::Subscribers;
use virtual_tree::{KeyType, ROOT_KEY};

fn plain(key: KeyType, title: &str) -> Box<PlainTreeData> {
    Box::new(PlainTreeData { key, icon: None, title: title.into(), flags: TreeFlags::empty() })
}

#[test]
fn empty_flags_hold_nothing() {
    let flags = TreeFlags::empty();
    assert!(flags.is_empty());
    assert!(!flags.contains(TreeFlags::root()));
    assert!(!flags.contains(TreeFlags::expanded()));
    assert!(!flags.contains(TreeFlags::loading()));
    assert!(!flags.contains(TreeFlags::ready()));
    assert!(!flags.contains(TreeFlags::expandable()));
    assert!(flags.contains(TreeFlags::empty()));
    assert!(!TreeFlags::ready().is_empty());
}

#[test]
fn single_flags_differ() {
    let all = [
        TreeFlags::root(),
        TreeFlags::expanded(),
        TreeFlags::loading(),
        TreeFlags::ready(),
        TreeFlags::expandable(),
    ];
    for (i, a) in all.iter().enumerate() {
        for (j, b) in all.iter().enumerate() {
            assert_eq!(a.contains(*b), i == j);
            assert_eq!(a == b, i == j);
        }
    }
}

#[test]
fn insert_remove_and_toggle_change_the_named_flags_only() {
    let mut flags = TreeFlags::expandable();
    flags.insert(TreeFlags::expanded());
    flags.insert(TreeFlags::ready());
    assert!(flags.contains(TreeFlags::expanded().union(TreeFlags::ready())));
    assert!(flags.contains(TreeFlags::expandable()));
    assert!(!flags.contains(TreeFlags::expanded().union(TreeFlags::loading())));
    flags.insert(TreeFlags::expanded());
    assert_eq!(
        flags,
        TreeFlags { root: false, expanded: true, loading: false, ready: true, expandable: true }
    );
    flags.remove(TreeFlags::expanded());
    assert!(!flags.contains(TreeFlags::expanded()));
    assert!(flags.contains(TreeFlags::ready()));
    flags.remove(TreeFlags::expanded());
    assert!(!flags.contains(TreeFlags::expanded()));
    flags.toggle(TreeFlags::loading());
    assert!(flags.contains(TreeFlags::loading()));
    flags.toggle(TreeFlags::loading().union(TreeFlags::ready()));
    assert_eq!(flags, TreeFlags::expandable());
}

#[test]
fn root_data_is_the_sentinel() {
    let data = RootData;
    assert_eq!(data.key(), ROOT_KEY);
    assert_eq!(data.key(), usize::MAX);
    assert_eq!(data.icon(), None);
    assert_eq!(data.title(), "ROOT");
    assert_eq!(data.hash(), u64::MAX);
    assert_eq!(data.flags(), TreeFlags::expandable().union(TreeFlags::root()));
    assert!(data.expandable());
}

#[test]
fn kinds_are_told_apart() {
    assert_ne!(TreeKind::Root, TreeKind::Folder);
    assert_ne!(TreeKind::Folder, TreeKind::File);
    assert_eq!(TreeKind::File, TreeKind::File);
}

#[test]
fn errors_are_told_apart() {
    assert_ne!(TreeError::Bounds, TreeError::Expansion);
    assert_ne!(TreeError::Expansion, TreeError::InvariantViolation);
    assert_eq!(format!("{:?}", TreeError::Bounds), "Bounds");
}

#[test]
fn attached_means_listed_by_the_parent() {
    let mut arena = TreeArena::new();
    let root = TreeNode::root(&mut arena);
    let a = TreeNode::new(&mut arena, root, plain(1, "a"));
    let b = TreeNode::new(&mut arena, root, plain(1, "same key"));
    assert!(root.is_attached(&arena));
    assert!(!a.is_attached(&arena));
    root.build(&mut arena, vec![a]);
    assert!(a.is_attached(&arena));
    assert!(!b.is_attached(&arena));
}

#[test]
fn adopts_tells_which_children_can_go_under_a_node() {
    let mut arena = TreeArena::new();
    let root = TreeNode::root(&mut arena);
    let a = TreeNode::new(&mut arena, root, plain(1, "a"));
    let b = TreeNode::new(&mut arena, root, plain(2, "b"));
    let twin = TreeNode::new(&mut arena, root, plain(2, "twin"));
    let below = TreeNode::new(&mut arena, a, plain(3, "below"));
    assert!(root.adopts(&arena, &vec![a, b]));
    assert!(root.adopts(&arena, &vec![]));
    assert!(!root.adopts(&arena, &vec![b, twin]), "two children with one key");
    assert!(!root.adopts(&arena, &vec![a, a]), "one child twice");
    assert!(!root.adopts(&arena, &vec![below]), "the child of another node");
    assert!(!root.adopts(&arena, &vec![root]), "the node itself");
    assert!(!root.adopts(&arena, &vec![TreeNode { index: 99 }]), "no node of the arena");
    assert!(a.adopts(&arena, &vec![below]));
    root.build(&mut arena, vec![a, b]);
    assert!(!root.adopts(&arena, &vec![a]), "a child that is there");
    assert!(!root.adopts(&arena, &vec![twin]), "a key that is there");
    assert!(a.adopts(&arena, &vec![below]));
    a.insert(&mut arena, vec![below]);
    assert_eq!(a.children_len(&arena), 1);
    assert_eq!(root.children_len(&arena), 2);
}

#[test]
fn subscribers_get_numbers_in_order() {
    let mut list = Subscribers::new();
    assert_eq!(list.add(), Ok(0));
    assert_eq!(list.add(), Ok(1));
    assert_eq!(list.add(), Ok(2));
    list.remove(1);
    list.remove(1);
    list.remove(7);
    assert_eq!(list.notify(), vec![0, 2]);
    assert_eq!(list.notify(), vec![0, 2]);
    list.remove(0);
    list.remove(2);
    assert_eq!(list.notify(), Vec::<usize>::new());
    assert_eq!(list.add(), Ok(3));
    assert_eq!(list.notify(), vec![3]);
}
