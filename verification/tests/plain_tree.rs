use virtual_tree::flags::TreeFlags;
use virtual_tree::node::{TreeArena, TreeNode};
use virtual_tree::plain::PlainTreeData;

#[test]
fn test() {
    let mut arena = TreeArena::new();
    let root = TreeNode::root(&mut arena);
    let first = TreeNode::new(
        &mut arena,
        root,
        Box::new(PlainTreeData {
            key: 1,
            icon: None,
            title: "1".into(),
            flags: TreeFlags::expandable(),
        }),
    );
    let first_first = TreeNode::new(
        &mut arena,
        first,
        Box::new(PlainTreeData {
            key: 11,
            icon: None,
            title: "1.1".into(),
            flags: TreeFlags::empty(),
        }),
    );
    let first_second = TreeNode::new(
        &mut arena,
        first,
        Box::new(PlainTreeData {
            key: 12,
            icon: None,
            title: "1.2".into(),
            flags: TreeFlags::empty(),
        }),
    );
    let first = first.build(&mut arena, vec![first_first, first_second]);
    let second = TreeNode::new(
        &mut arena,
        root,
        Box::new(PlainTreeData {
            key: 2,
            icon: None,
            title: "2".into(),
            flags: TreeFlags::empty(),
        }),
    );
    let tree = root.build(&mut arena, vec![first, second]);

    assert_eq!(tree.children_len(&arena), 4);

    let stack = tree.flatten(&arena);

    println!("Tree {:#?}", stack.len());
}
