use virtual_tree::error::TreeError;
use virtual_tree::flags::TreeFlags;
use virtual_tree::iter::TreeCursor;
use virtual_tree::node::{TreeArena, TreeData, TreeNode};
use virtual_tree::plain::PlainTreeData;
use virtual_tree::{HashType, KeyType, ROOT_KEY};

fn plain(key: KeyType, title: &str, expandable: bool) -> Box<PlainTreeData> {
    Box::new(PlainTreeData {
        key,
        icon: None,
        title: title.into(),
        flags: if expandable { TreeFlags::expandable() } else { TreeFlags::empty() },
    })
}

/// root
///   1
///     11
///       111
///     12
///   2
///     21
///   3
fn sample(arena: &mut TreeArena) -> (TreeNode, Vec<TreeNode>) {
    let root = TreeNode::root(arena);
    let n1 = TreeNode::new(arena, root, plain(1, "1", true));
    let n11 = TreeNode::new(arena, n1, plain(11, "1.1", true));
    let n111 = TreeNode::new(arena, n11, plain(111, "1.1.1", false));
    let n12 = TreeNode::new(arena, n1, plain(12, "1.2", false));
    let n2 = TreeNode::new(arena, root, plain(2, "2", true));
    let n21 = TreeNode::new(arena, n2, plain(21, "2.1", false));
    let n3 = TreeNode::new(arena, root, plain(3, "3", false));
    n11.build(arena, vec![n111]);
    n1.build(arena, vec![n11, n12]);
    n2.build(arena, vec![n21]);
    root.build(arena, vec![n1, n2, n3]);
    (root, vec![n1, n11, n111, n12, n2, n21, n3])
}

fn expand(arena: &mut TreeArena, node: TreeNode) {
    let mut flags = node.flags(arena);
    flags.insert(TreeFlags::expanded());
    node.set_flags(arena, flags);
}

fn collapse(arena: &mut TreeArena, node: TreeNode) {
    let mut flags = node.flags(arena);
    flags.remove(TreeFlags::expanded());
    node.set_flags(arena, flags);
}

fn keys(arena: &TreeArena, node: TreeNode) -> Vec<KeyType> {
    node.flatten(arena).keys().copied().collect()
}

#[test]
fn root_is_a_sentinel() {
    let mut arena = TreeArena::new();
    let root = TreeNode::root(&mut arena);
    assert!(arena.contains(root));
    assert_eq!(arena.len(), 1);
    assert!(root.is_root(&arena));
    assert_eq!(root.key(&arena), ROOT_KEY);
    assert_eq!(root.key(&arena), usize::MAX);
    assert_eq!(root.title(&arena), "ROOT");
    assert_eq!(root.hash(&arena), u64::MAX);
    assert!(root.expandable(&arena));
    assert_eq!(root.depth(&arena), 0);
    assert_eq!(root.flags(&arena), TreeFlags::root());
    assert_eq!(root.parent(&arena), root);
    assert_eq!(root.children_len(&arena), 0);
    assert_eq!(root.child_count(&arena), 0);
    assert_eq!(root.first_child(&arena), None);
    assert_eq!(keys(&arena, root), Vec::<KeyType>::new());
}

#[test]
fn new_node_is_a_detached_leaf() {
    let mut arena = TreeArena::new();
    let root = TreeNode::root(&mut arena);
    let node = TreeNode::new(&mut arena, root, plain(7, "seven", true));
    assert_eq!(node.key(&arena), 7);
    assert_eq!(node.title(&arena), "seven");
    assert_eq!(node.depth(&arena), 1);
    assert_eq!(node.parent(&arena), root);
    assert_eq!(node.flags(&arena), TreeFlags::empty());
    assert!(node.expandable(&arena));
    assert!(!node.expanded(&arena));
    assert!(!node.is_root(&arena));
    assert_eq!(node.children_len(&arena), 0);
    assert_eq!(root.child_count(&arena), 0);
    assert_eq!(root.get(&arena, 7), None);
    let deeper = TreeNode::new(&mut arena, node, plain(8, "eight", false));
    assert_eq!(deeper.depth(&arena), 2);
    assert!(!deeper.expandable(&arena));
}

#[test]
fn build_counts_every_descendant() {
    let mut arena = TreeArena::new();
    let (root, nodes) = sample(&mut arena);
    assert_eq!(root.children_len(&arena), 7);
    assert_eq!(nodes[0].children_len(&arena), 3);
    assert_eq!(nodes[1].children_len(&arena), 1);
    assert_eq!(nodes[2].children_len(&arena), 0);
    assert_eq!(nodes[4].children_len(&arena), 1);
    assert_eq!(root.child_count(&arena), 3);
    assert_eq!(root.first_child(&arena), Some(nodes[0]));
    assert_eq!(root.child_at(&arena, 2), Some(nodes[6]));
    assert_eq!(root.child_at(&arena, 3), None);
    assert_eq!(root.get(&arena, 2), Some(nodes[4]));
    assert_eq!(root.get(&arena, 11), None);
    assert_eq!(nodes[0].get(&arena, 12), Some(nodes[3]));
}

#[test]
fn insert_adds_sizes_up_to_but_not_into_the_root() {
    let mut arena = TreeArena::new();
    let (root, nodes) = sample(&mut arena);
    let n11 = nodes[1];
    let a = TreeNode::new(&mut arena, n11, plain(112, "1.1.2", false));
    let b = TreeNode::new(&mut arena, n11, plain(113, "1.1.3", true));
    let c = TreeNode::new(&mut arena, b, plain(1131, "1.1.3.1", false));
    b.build(&mut arena, vec![c]);
    assert!(n11.is_in_tree(&arena));
    n11.insert(&mut arena, vec![a, b]);
    assert_eq!(n11.children_len(&arena), 4);
    assert_eq!(nodes[0].children_len(&arena), 6);
    assert_eq!(root.children_len(&arena), 7);
    assert_eq!(nodes[4].children_len(&arena), 1);
    assert_eq!(n11.child_count(&arena), 3);
    assert_eq!(n11.child_at(&arena, 1), Some(a));
    assert_eq!(n11.child_at(&arena, 2), Some(b));
    assert_eq!(b.children_len(&arena), 1);
}

#[test]
fn insert_into_the_root_adds_to_the_root() {
    let mut arena = TreeArena::new();
    let root = TreeNode::root(&mut arena);
    let a = TreeNode::new(&mut arena, root, plain(1, "a", false));
    let b = TreeNode::new(&mut arena, root, plain(2, "b", false));
    root.insert(&mut arena, vec![a, b]);
    assert_eq!(root.children_len(&arena), 2);
    assert_eq!(keys(&arena, root), vec![1, 2]);
}

#[test]
fn subtree_sizes_add_up_after_inserts() {
    let mut arena = TreeArena::new();
    let (_root, nodes) = sample(&mut arena);
    let n21 = nodes[5];
    let x = TreeNode::new(&mut arena, n21, plain(211, "x", false));
    n21.insert(&mut arena, vec![x]);
    let y = TreeNode::new(&mut arena, x, plain(2111, "y", false));
    let z = TreeNode::new(&mut arena, x, plain(2112, "z", false));
    x.insert(&mut arena, vec![y, z]);
    let mut index = 0;
    while index < arena.len() {
        let node = TreeNode { index };
        if !node.is_root(&arena) {
            let mut sum = 0;
            let mut offset = 0;
            while let Some(child) = node.child_at(&arena, offset) {
                sum += 1 + child.children_len(&arena);
                offset += 1;
            }
            assert_eq!(node.children_len(&arena), sum);
        }
        index += 1;
    }
    assert_eq!(nodes[4].children_len(&arena), 4);
}

#[test]
fn a_node_is_part_of_its_tree_once_its_chain_is_attached() {
    let mut arena = TreeArena::new();
    let root = TreeNode::root(&mut arena);
    let loose = TreeNode::new(&mut arena, root, plain(1, "loose", true));
    let leaf = TreeNode::new(&mut arena, loose, plain(2, "leaf", false));
    assert!(root.is_in_tree(&arena));
    assert!(!loose.is_in_tree(&arena));
    loose.build(&mut arena, vec![leaf]);
    assert!(!leaf.is_in_tree(&arena));
    root.build(&mut arena, vec![loose]);
    assert!(loose.is_in_tree(&arena));
    assert!(leaf.is_in_tree(&arena));
    let twin = TreeNode::new(&mut arena, root, plain(1, "twin", false));
    assert!(!twin.is_in_tree(&arena));
}

#[test]
fn a_node_accepts_children_with_fresh_keys() {
    let mut arena = TreeArena::new();
    let (root, nodes) = sample(&mut arena);
    let fresh = vec![*plain(31, "a", false), *plain(32, "b", false)];
    assert!(nodes[6].accepts(&arena, &fresh));
    let twice = vec![*plain(31, "a", false), *plain(31, "b", false)];
    assert!(!nodes[6].accepts(&arena, &twice));
    let taken = vec![*plain(12, "taken", false)];
    assert!(!nodes[0].accepts(&arena, &taken));
    assert!(nodes[1].accepts(&arena, &taken));
    let loose = TreeNode::new(&mut arena, root, plain(9, "loose", true));
    assert!(!loose.accepts(&arena, &fresh));
    assert!(root.accepts(&arena, &Vec::<PlainTreeData>::new()));

    let made = nodes[6].insert_data(&mut arena, &fresh);
    assert_eq!(made.len(), 2);
    assert_eq!(made[0].key(&arena), 31);
    assert_eq!(made[1].title(&arena), "b");
    assert_eq!(made[0].parent(&arena), nodes[6]);
    assert_eq!(made[0].depth(&arena), 2);
    assert_eq!(nodes[6].children_len(&arena), 2);
    assert_eq!(nodes[6].child_at(&arena, 1), Some(made[1]));
    assert!(made[1].is_in_tree(&arena));
    assert!(!nodes[6].accepts(&arena, &fresh));
}

#[test]
fn flatten_shows_what_expanded_ancestors_allow() {
    let mut arena = TreeArena::new();
    let (root, nodes) = sample(&mut arena);
    assert_eq!(keys(&arena, root), vec![1, 2, 3]);
    expand(&mut arena, nodes[0]);
    assert_eq!(keys(&arena, root), vec![1, 11, 12, 2, 3]);
    expand(&mut arena, nodes[1]);
    assert_eq!(keys(&arena, root), vec![1, 11, 111, 12, 2, 3]);
    expand(&mut arena, nodes[4]);
    assert_eq!(keys(&arena, root), vec![1, 11, 111, 12, 2, 21, 3]);
    collapse(&mut arena, nodes[0]);
    assert_eq!(keys(&arena, root), vec![1, 2, 21, 3]);
    assert_eq!(root.flatten(&arena).len(), 4);
    expand(&mut arena, nodes[0]);
    assert_eq!(keys(&arena, root), vec![1, 11, 111, 12, 2, 21, 3]);
}

#[test]
fn flatten_needs_both_parent_and_node_expanded_for_grandchildren() {
    let mut arena = TreeArena::new();
    let (root, nodes) = sample(&mut arena);
    expand(&mut arena, nodes[1]);
    assert_eq!(keys(&arena, root), vec![1, 2, 3]);
    expand(&mut arena, nodes[0]);
    assert_eq!(keys(&arena, root), vec![1, 11, 111, 12, 2, 3]);
    collapse(&mut arena, nodes[1]);
    assert_eq!(keys(&arena, root), vec![1, 11, 12, 2, 3]);
}

#[test]
fn flatten_maps_keys_to_nodes() {
    let mut arena = TreeArena::new();
    let (root, nodes) = sample(&mut arena);
    expand(&mut arena, nodes[0]);
    let flat = root.flatten(&arena);
    assert_eq!(flat.get(&11), Some(&nodes[1].index));
    assert_eq!(flat.get_index(3), Some((&2, &nodes[4].index)));
    assert_eq!(flat.get(&111), None);
    let (same, unique) = root.flatten_checked(&arena);
    assert!(unique);
    assert_eq!(same, flat);
}

#[test]
fn flatten_of_a_node_starts_with_the_node() {
    let mut arena = TreeArena::new();
    let (_root, nodes) = sample(&mut arena);
    assert_eq!(keys(&arena, nodes[0]), vec![1]);
    expand(&mut arena, nodes[0]);
    assert_eq!(keys(&arena, nodes[0]), vec![1, 11, 12]);
}

#[test]
fn flatten_keeps_the_first_place_of_a_key_shown_twice() {
    let mut arena = TreeArena::new();
    let root = TreeNode::root(&mut arena);
    let a = TreeNode::new(&mut arena, root, plain(1, "a", true));
    let twin = TreeNode::new(&mut arena, a, plain(2, "twin", false));
    let b = TreeNode::new(&mut arena, root, plain(2, "b", false));
    a.build(&mut arena, vec![twin]);
    root.build(&mut arena, vec![a, b]);
    expand(&mut arena, a);
    let (flat, unique) = root.flatten_checked(&arena);
    assert!(!unique);
    assert_eq!(flat.len(), 2);
    assert_eq!(flat.get_index(1), Some((&2, &b.index)));
}

#[test]
fn find_by_index_follows_the_shown_rows() {
    let mut arena = TreeArena::new();
    let (root, nodes) = sample(&mut arena);
    expand(&mut arena, nodes[1]);
    expand(&mut arena, nodes[4]);
    // shown: 1, 2, 21, 3 (node 11 is expanded below a collapsed node)
    let path = root.find_by_index(&arena, 0).unwrap();
    assert_eq!(path, vec![TreeCursor { node: nodes[0], offset: 0 }]);
    let path = root.find_by_index(&arena, 1).unwrap();
    assert_eq!(path, vec![TreeCursor { node: nodes[4], offset: 1 }]);
    let path = root.find_by_index(&arena, 2).unwrap();
    assert_eq!(
        path,
        vec![TreeCursor { node: nodes[4], offset: 1 }, TreeCursor { node: nodes[5], offset: 0 }]
    );
    let path = root.find_by_index(&arena, 3).unwrap();
    assert_eq!(path, vec![TreeCursor { node: nodes[6], offset: 2 }]);
    assert_eq!(root.find_by_index(&arena, 4), Err(TreeError::Bounds));
}

#[test]
fn find_by_index_descends_through_expanded_nodes() {
    let mut arena = TreeArena::new();
    let (root, nodes) = sample(&mut arena);
    expand(&mut arena, nodes[0]);
    expand(&mut arena, nodes[1]);
    let path = root.find_by_index(&arena, 2).unwrap();
    assert_eq!(
        path,
        vec![
            TreeCursor { node: nodes[0], offset: 0 },
            TreeCursor { node: nodes[1], offset: 0 },
            TreeCursor { node: nodes[2], offset: 0 },
        ]
    );
    let path = root.find_by_index(&arena, 3).unwrap();
    assert_eq!(
        path,
        vec![TreeCursor { node: nodes[0], offset: 0 }, TreeCursor { node: nodes[3], offset: 1 }]
    );
    let flat = root.flatten(&arena);
    for index in 0..flat.len() {
        let path = root.find_by_index(&arena, index).unwrap();
        assert_eq!(path.last().unwrap().node.index, *flat.get_index(index).unwrap().1);
    }
    assert_eq!(root.find_by_index(&arena, flat.len()), Err(TreeError::Bounds));
    assert_eq!(root.find_by_index(&arena, usize::MAX), Err(TreeError::Bounds));
}

#[test]
fn find_by_index_on_an_empty_tree_is_out_of_bounds() {
    let mut arena = TreeArena::new();
    let root = TreeNode::root(&mut arena);
    assert_eq!(root.find_by_index(&arena, 0), Err(TreeError::Bounds));
}

#[test]
fn next_sibling_is_the_next_child_of_the_parent() {
    let mut arena = TreeArena::new();
    let (_root, nodes) = sample(&mut arena);
    let first = TreeCursor { node: nodes[0], offset: 0 };
    let second = first.next_sibling(&arena).unwrap();
    assert_eq!(second, TreeCursor { node: nodes[4], offset: 1 });
    let third = second.next_sibling(&arena).unwrap();
    assert_eq!(third, TreeCursor { node: nodes[6], offset: 2 });
    assert_eq!(third.next_sibling(&arena), None);
    let only = TreeCursor { node: nodes[2], offset: 0 };
    assert_eq!(only.next_sibling(&arena), None);
}

#[test]
fn slice_walks_the_rows_in_order() {
    let mut arena = TreeArena::new();
    let root = TreeNode::root(&mut arena);
    let n1 = TreeNode::new(&mut arena, root, plain(1, "1", true));
    let n11 = TreeNode::new(&mut arena, n1, plain(11, "1.1", false));
    let n12 = TreeNode::new(&mut arena, n1, plain(12, "1.2", false));
    let n2 = TreeNode::new(&mut arena, root, plain(2, "2", false));
    n1.build(&mut arena, vec![n11, n12]);
    root.build(&mut arena, vec![n1, n2]);
    expand(&mut arena, n1);
    let mut item = root.slice(&arena, 0..100).unwrap();
    assert_eq!(item.next(&arena).unwrap().title(&arena), "1");
    assert_eq!(item.next(&arena).unwrap().title(&arena), "1.1");
    assert_eq!(item.next(&arena).unwrap().title(&arena), "1.2");
    assert_eq!(item.next(&arena).unwrap().title(&arena), "2");
    assert_eq!(item.next(&arena), None);
    assert_eq!(item.next(&arena), None);
}

#[test]
fn slice_from_any_row_matches_flatten() {
    let mut arena = TreeArena::new();
    let (root, nodes) = sample(&mut arena);
    expand(&mut arena, nodes[0]);
    expand(&mut arena, nodes[1]);
    expand(&mut arena, nodes[4]);
    let flat: Vec<usize> = root.flatten(&arena).values().copied().collect();
    assert_eq!(flat.len(), 7);
    for start in 0..flat.len() {
        let mut walk = root.slice(&arena, start..flat.len()).unwrap();
        let mut seen = Vec::new();
        while let Some(node) = walk.next(&arena) {
            seen.push(node.index);
        }
        assert_eq!(seen, flat[start..].to_vec());
    }
    assert!(matches!(root.slice(&arena, 7..8), Err(TreeError::Bounds)));
}

#[test]
fn slice_climbs_out_of_the_last_descendant() {
    let mut arena = TreeArena::new();
    let (root, nodes) = sample(&mut arena);
    expand(&mut arena, nodes[0]);
    expand(&mut arena, nodes[1]);
    // rows: 1, 11, 111, 12, 2, 3
    let mut walk = root.slice(&arena, 2..3).unwrap();
    assert_eq!(walk.next(&arena), Some(nodes[2]));
    assert_eq!(walk.next(&arena), Some(nodes[3]));
    assert_eq!(walk.next(&arena), Some(nodes[4]));
    assert_eq!(walk.next(&arena), Some(nodes[6]));
    assert_eq!(walk.next(&arena), None);
}

#[test]
fn plain_data_hashes_key_and_title() {
    let data = PlainTreeData {
        key: 5,
        icon: Some("folder".to_string()),
        title: "five".to_string(),
        flags: TreeFlags::expandable(),
    };
    let expected: HashType = fxhash::hash64(&(&5usize, &"five".to_string()));
    assert_eq!(data.hash(), expected);
    assert_ne!(data.hash(), 5);
    let other = PlainTreeData { key: 5, icon: None, title: "six".to_string(), flags: TreeFlags::empty() };
    assert_ne!(other.hash(), data.hash());
    let same = PlainTreeData { key: 5, icon: None, title: "five".to_string(), flags: TreeFlags::empty() };
    assert_eq!(same.hash(), data.hash());
    assert_eq!(data.key(), 5);
    assert_eq!(data.icon(), Some("folder"));
    assert_eq!(data.title(), "five");
    assert_eq!(data.flags(), TreeFlags::expandable());
    assert!(data.expandable());
    assert!(!other.expandable());
}

#[test]
fn node_keeps_what_its_data_showed() {
    let mut arena = TreeArena::new();
    let root = TreeNode::root(&mut arena);
    let data = PlainTreeData {
        key: 9,
        icon: Some("leaf".to_string()),
        title: "nine".to_string(),
        flags: TreeFlags::empty(),
    };
    let hash = data.hash();
    let node = TreeNode::new(&mut arena, root, Box::new(data));
    assert_eq!(node.hash(&arena), hash);
    assert_eq!(node.title(&arena), "nine");
    let by_ref = PlainTreeData { key: 10, icon: None, title: "ten".to_string(), flags: TreeFlags::expandable() };
    let other = TreeNode::new_from(&mut arena, root, &by_ref);
    assert_eq!(other.key(&arena), 10);
    assert!(other.expandable(&arena));
}
