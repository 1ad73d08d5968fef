use virtual_tree::dynamic::{DynamicTree, ExpandOutcome};
use virtual_tree::flags::TreeFlags;
use virtual_tree::item::TreeItem;
use virtual_tree::node::{TreeArena, TreeNode, TreeNodeInner};
use virtual_tree::plain::PlainTreeData;
use virtual_tree::provider::{TreeExpandResult, TreeProvider};
use virtual_tree::view::{
    ItemPatch, Placed, RenderedItem, Source, TreeController, TreeView, INDENT,
    ITEM_HEIGHT, OVERSCAN,
};
use virtual_tree::{KeyType, ROOT_KEY};

fn plain(key: KeyType, title: &str, expandable: bool) -> PlainTreeData {
    PlainTreeData {
        key,
        icon: None,
        title: title.into(),
        flags: if expandable { TreeFlags::expandable() } else { TreeFlags::empty() },
    }
}

/// The root has `width` children with the keys from 1 on, every third of
/// which can be expanded and has two children.
struct Wide {
    width: usize,
}

impl TreeProvider for Wide {
    type Data = PlainTreeData;

    fn root(&self) -> PlainTreeData {
        plain(ROOT_KEY, "ROOT", true)
    }

    fn expand(&self, node: &TreeNodeInner) -> TreeExpandResult<PlainTreeData> {
        let key = node.key();
        if key == ROOT_KEY {
            TreeExpandResult::Ready(
                (1..=self.width).map(|k| plain(k, &format!("row {}", k), k % 3 == 0)).collect(),
            )
        } else {
            TreeExpandResult::Ready(vec![
                plain(1000 * key + 1, "first", false),
                plain(1000 * key + 2, "second", false),
            ])
        }
    }
}

fn wide(width: usize) -> DynamicTree<Wide> {
    let mut tree = DynamicTree::new(Wide { width });
    assert!(matches!(tree.expand(ROOT_KEY), Ok(ExpandOutcome::Expanded)));
    tree
}

fn shown_keys(placed: &[Placed]) -> Vec<KeyType> {
    placed.iter().map(|row| row.key).collect()
}

#[test]
fn new_view_has_no_extent_and_no_renderings() {
    let view = TreeView::render(50);
    assert_eq!(view.window(50), (0, 2));
    assert_eq!(view.rendered_len(), 0);
    assert_eq!(view.pool_len(), 0);
    assert_eq!(view.renderings_len(), 0);
    assert_eq!(view.slot_of(1), None);
    assert_eq!(view.rendering(0), None);
    assert_eq!(ITEM_HEIGHT, 24);
    assert_eq!(OVERSCAN, 2);
    assert_eq!(INDENT, 16);
}

#[test]
fn viewport_of_240_pixels_shows_ten_rows_and_the_overscan() {
    let tree = wide(100);
    let mut view = TreeView::render(tree.count());
    let update = view.update_size(&tree, 300, 240);
    assert_eq!(view.window(100), (0, 12));
    assert_eq!(update.placed.len(), 10 + OVERSCAN);
    assert_eq!(update.scroll_height, 2400);
    assert_eq!(shown_keys(&update.placed), (1..=12).collect::<Vec<_>>());
    assert!(update.released.is_empty());
    assert_eq!(view.rendered_len(), 12);
    assert_eq!(view.renderings_len(), 12);
    assert_eq!(view.pool_len(), 0);
}

#[test]
fn scrolling_to_480_starts_the_window_at_row_20() {
    let tree = wide(100);
    let mut view = TreeView::render(tree.count());
    view.update_size(&tree, 300, 240);
    assert_eq!(view.window(100).0, 0);
    let update = view.update_scroll(&tree, 480);
    assert_eq!(view.window(100), (20, 32));
    assert_eq!(shown_keys(&update.placed), (21..=32).collect::<Vec<_>>());
    assert_eq!(update.placed[0].index, 20);
    assert_eq!(update.placed[0].y, 480);
    assert_eq!(update.placed[11].y, 31 * 24);
}

#[test]
fn rows_that_scroll_out_go_to_the_pool_and_are_used_again() {
    let tree = wide(100);
    let mut view = TreeView::render(tree.count());
    let first = view.update_size(&tree, 300, 240);
    assert!(first.placed.iter().all(|row| row.source == Source::Created));
    assert_eq!(first.placed.iter().map(|row| row.slot).collect::<Vec<_>>(), (0..12).collect::<Vec<_>>());

    // one row down: row 0 leaves, row 12 comes
    let update = view.update_scroll(&tree, 24);
    assert_eq!(view.window(100), (1, 13));
    assert_eq!(update.released, vec![0]);
    let kept: Vec<&Placed> = update.placed.iter().filter(|row| row.source == Source::Kept).collect();
    assert_eq!(kept.len(), 11);
    assert_eq!(kept[0].key, 2);
    assert_eq!(kept[0].slot, 1);
    let last = update.placed[11];
    assert_eq!(last.key, 13);
    assert_eq!(last.source, Source::Created);
    assert_eq!(last.slot, 12);
    assert_eq!(view.renderings_len(), 13);
    assert_eq!(view.pool_len(), 1);

    // one more row down: the pooled rendering shows the new row
    let update = view.update_scroll(&tree, 48);
    let last = update.placed[11];
    assert_eq!(last.key, 14);
    assert_eq!(last.source, Source::Pooled);
    assert_eq!(last.slot, 0);
    assert_eq!(update.released, vec![1]);
    assert_eq!(view.renderings_len(), 13);
    assert_eq!(view.pool_len(), 1);
    assert_eq!(view.slot_of(14), Some(0));
    assert_eq!(view.slot_of(2), None);
}

#[test]
fn the_pool_does_not_grow_under_repeated_scrolling() {
    let tree = wide(500);
    let mut view = TreeView::render(tree.count());
    view.update_size(&tree, 300, 240);
    let mut most = 0;
    for step in 0..400 {
        let offset = (step * 37) % (500 * 24);
        let update = view.update_scroll(&tree, offset);
        assert!(update.placed.len() <= 12);
        assert_eq!(view.rendered_len(), update.placed.len());
        assert_eq!(view.rendered_len() + view.pool_len(), view.renderings_len());
        most = most.max(view.renderings_len());
    }
    assert!(most <= 24, "never more than two windows of renderings: {}", most);
    // a jump to a far place takes every rendering from the pool
    let update = view.update_scroll(&tree, 0);
    let before = view.renderings_len();
    let update_far = view.update_scroll(&tree, 200 * 24);
    assert_eq!(update.placed.len(), 12);
    assert_eq!(update_far.placed.len(), 12);
    assert_eq!(view.renderings_len(), before);
    assert!(update_far.placed.iter().all(|row| row.source == Source::Pooled));
}

#[test]
fn window_ends_with_the_rows() {
    let tree = wide(5);
    let mut view = TreeView::render(tree.count());
    let update = view.update_size(&tree, 300, 240);
    assert_eq!(view.window(5), (0, 5));
    assert_eq!(update.placed.len(), 5);
    assert_eq!(update.scroll_height, 120);
    let update = view.update_scroll(&tree, 96);
    assert_eq!(view.window(5), (4, 5));
    assert_eq!(shown_keys(&update.placed), vec![5]);
    assert_eq!(update.released.len(), 4);
    let update = view.update_scroll(&tree, 24 * 50);
    assert_eq!(view.window(5), (50, 5));
    assert!(update.placed.is_empty());
    assert_eq!(update.released.len(), 1);
    assert_eq!(view.rendered_len(), 0);
    assert_eq!(view.pool_len(), 5);
}

#[test]
fn a_cut_off_row_counts() {
    let tree = wide(100);
    let mut view = TreeView::render(tree.count());
    view.update_size(&tree, 300, 250);
    assert_eq!(view.window(100), (0, 13));
    view.update_size(&tree, 300, 0);
    assert_eq!(view.window(100), (0, 2));
    view.update_scroll(&tree, 47);
    assert_eq!(view.window(100), (1, 3));
    view.update_size(&tree, 300, usize::MAX);
    assert_eq!(view.window(100), (1, 100));
    view.update_scroll(&tree, usize::MAX);
    assert_eq!(view.window(100).1, 100);
}

#[test]
fn empty_tree_has_an_empty_window() {
    let tree = DynamicTree::new(Wide { width: 0 });
    let mut view = TreeView::render(tree.count());
    let update = view.update_size(&tree, 300, 240);
    assert!(update.placed.is_empty());
    assert!(update.released.is_empty());
    assert_eq!(update.scroll_height, 0);
    assert_eq!(view.window(0), (0, 0));
}

#[test]
fn rows_are_indented_by_depth() {
    let mut tree = wide(9);
    assert!(matches!(tree.expand(3), Ok(ExpandOutcome::Expanded)));
    let mut view = TreeView::render(tree.count());
    let update = view.update_size(&tree, 300, 240);
    // rows: 1, 2, 3, 3001, 3002, 4, ...
    assert_eq!(update.placed[0].x, 16);
    assert_eq!(update.placed[2].key, 3);
    assert_eq!(update.placed[2].x, 0);
    assert_eq!(update.placed[3].key, 3001);
    assert_eq!(update.placed[3].x, 32);
    let item = tree.item(3).unwrap();
    assert_eq!(view.calc_shift(item), 32);
    assert_eq!(view.calc_shift(tree.item(2).unwrap()), 0);
    assert_eq!(view.calc_shift(tree.root().inner(tree.arena())), 0);

    let mut arena = TreeArena::new();
    let root = TreeNode::root(&mut arena);
    let a = TreeNode::new(&mut arena, root, Box::new(plain(1, "a", true)));
    let b = TreeNode::new(&mut arena, a, Box::new(plain(2, "b", true)));
    let c = TreeNode::new(&mut arena, b, Box::new(plain(3, "c", false)));
    assert_eq!(view.calc_shift(a.inner(&arena)), 0);
    assert_eq!(view.calc_shift(b.inner(&arena)), 16);
    assert_eq!(view.calc_shift(c.inner(&arena)), 48);
}

#[test]
fn a_kept_row_is_written_anew_only_where_it_changed() {
    let mut tree = wide(9);
    let mut view = TreeView::render(tree.count());
    let first = view.update_size(&tree, 300, 240);
    assert_eq!(
        first.placed[2].patch,
        ItemPatch { arrow: Some(true), expanded: Some(false), content: true }
    );
    assert_eq!(
        first.placed[0].patch,
        ItemPatch { arrow: Some(false), expanded: Some(false), content: true }
    );
    let again = view.update(&tree);
    for row in &again.placed {
        assert_eq!(row.source, Source::Kept);
        assert_eq!(row.patch, ItemPatch { arrow: None, expanded: None, content: false });
    }
    assert!(matches!(tree.expand(3), Ok(ExpandOutcome::Expanded)));
    let update = view.update(&tree);
    assert_eq!(update.scroll_height, 11 * 24);
    assert_eq!(update.placed[2].key, 3);
    assert_eq!(update.placed[2].source, Source::Kept);
    assert_eq!(
        update.placed[2].patch,
        ItemPatch { arrow: None, expanded: Some(true), content: false }
    );
    assert_eq!(update.placed[3].key, 3001);
    assert_eq!(update.placed[3].source, Source::Created);
    // the rows below keep their renderings and move down
    assert_eq!(update.placed[5].key, 4);
    assert_eq!(update.placed[5].source, Source::Kept);
    assert_eq!(update.placed[5].slot, first.placed[3].slot);
    assert_eq!(update.placed[5].y, 5 * 24);
    let slot = view.slot_of(4).unwrap();
    assert_eq!(view.rendering(slot).unwrap().y, 5 * 24);
}

#[test]
fn a_pooled_rendering_is_patched_against_what_it_showed() {
    let tree = wide(100);
    let mut view = TreeView::render(tree.count());
    view.update_size(&tree, 300, 24);
    // rows 1, 2, 3 are shown; 3 can be expanded
    let update = view.update_scroll(&tree, 24 * 3);
    // rows 4, 5, 6 take the renderings of 3, 2, 1
    assert_eq!(update.released, vec![0, 1, 2]);
    let update = view.update_scroll(&tree, 24 * 6);
    let seven = update.placed[0];
    assert_eq!(seven.key, 7);
    assert_eq!(seven.source, Source::Pooled);
    assert_eq!(seven.slot, 2);
    assert_eq!(seven.patch, ItemPatch { arrow: Some(false), expanded: None, content: true });
    let eight = update.placed[1];
    assert_eq!(eight.slot, 1);
    assert_eq!(eight.patch, ItemPatch { arrow: None, expanded: None, content: true });
}

#[test]
fn rendering_follows_its_item() {
    let mut arena = TreeArena::new();
    let root = TreeNode::root(&mut arena);
    let a = TreeNode::new(&mut arena, root, Box::new(plain(1, "a", true)));
    let b = TreeNode::new(&mut arena, root, Box::new(plain(2, "b", false)));
    let mut rendered = RenderedItem::render(a.inner(&arena), 24, 0);
    assert_eq!(
        rendered,
        RenderedItem { hash: a.hash(&arena), expandable: true, expanded: false, y: 24, x: 0 }
    );
    rendered.toggle_expanded();
    assert!(rendered.expanded);
    rendered.update_style(48, 16);
    assert_eq!((rendered.y, rendered.x), (48, 16));
    let patch = rendered.update_item(b.inner(&arena));
    assert_eq!(patch, ItemPatch { arrow: Some(false), expanded: Some(false), content: true });
    assert_eq!(
        rendered,
        RenderedItem { hash: b.hash(&arena), expandable: false, expanded: false, y: 48, x: 16 }
    );
    let patch = rendered.update_item(b.inner(&arena));
    assert_eq!(patch, ItemPatch { arrow: None, expanded: None, content: false });
}
