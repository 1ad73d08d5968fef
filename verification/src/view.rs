//! The window onto the rows of a tree: which rows a viewport shows, and
//! which renderings show them.

use vstd::prelude::*;

use crate::error::TreeError;
use crate::item::TreeItem;
use crate::ordered_map::{
    keys_distinct, lemma_position_of, map_entries, map_get, map_get_index, map_insert, map_len,
    map_new, position_of, value_of, Entry, KeyMap,
};
use crate::{HashType, KeyType};

verus! {

/// What the windowed view asks of the controller of a tree.
pub trait TreeController {
    /// What the controller hands out of a row.
    type Item: TreeItem;

    /// What a click comes to.
    type Outcome;

    /// The controller is fit to be asked.
    spec fn valid(&self) -> bool;

    /// The items of the rows, from top to bottom.
    spec fn items(&self) -> Seq<Self::Item>;

    /// The item of the row with the given index.
    fn item(&self, index: usize) -> (item: Result<&Self::Item, TreeError>)
        requires
            self.valid(),
        ensures
            index < self.items().len() ==> item is Ok && *item->Ok_0 == self.items()[index as int],
            index >= self.items().len() ==> item is Err && item->Err_0 == TreeError::Bounds,
    ;

    /// The number of rows. No two rows have items with the same key.
    fn count(&self) -> (count: usize)
        requires
            self.valid(),
        ensures
            count == self.items().len(),
            forall|i: int, j: int|
                0 <= i < j < self.items().len() ==> (#[trigger] self.items()[i]).spec_key() != (
                #[trigger] self.items()[j]).spec_key(),
    ;

    /// Takes a click on the row with the given key.
    fn handle_click(&mut self, key: KeyType) -> (clicked: Result<Self::Outcome, TreeError>)
        requires
            old(self).valid(),
        ensures
            final(self).valid(),
    ;

    /// Takes a new subscriber and returns the number by which it is known.
    fn add_subscriber(&mut self) -> (id: Result<usize, TreeError>)
        requires
            old(self).valid(),
        ensures
            final(self).valid(),
            final(self).items() == old(self).items(),
    ;
}

/// The width of one level of indentation, in pixels.
pub const INDENT: usize = 16;

/// The number of rows that are rendered beyond those that the viewport
/// holds, so that scrolling does not show a gap.
pub const OVERSCAN: usize = 2;

/// The height of a row in a new view, in pixels.
pub const ITEM_HEIGHT: usize = 24;

/// The index of the first row that a viewport scrolled to `offset` shows.
pub open spec fn first_visible(offset: nat, item_height: nat) -> nat {
    offset / item_height
}

/// The number of rows that are rendered for a viewport of the given height:
/// as many as the height holds, a row that is cut off counted, and the
/// overscan.
pub open spec fn visible_count(height: nat, item_height: nat) -> nat {
    if height % item_height == 0 {
        height / item_height + OVERSCAN as nat
    } else {
        height / item_height + 1 + OVERSCAN as nat
    }
}

/// The index behind the last row that is rendered.
pub open spec fn window_end(count: nat, offset: nat, height: nat, item_height: nat) -> nat {
    if first_visible(offset, item_height) + visible_count(height, item_height) < count {
        first_visible(offset, item_height) + visible_count(height, item_height)
    } else {
        count
    }
}

/// The distance of a row from the left edge: one indentation for each level
/// of depth, and one less for a row that can be expanded, which has an
/// arrow in that place. It does not go below zero.
pub open spec fn shift(depth: u16, expandable: bool) -> nat {
    if !expandable {
        depth as nat * INDENT as nat
    } else if depth == 0 {
        0
    } else {
        (depth as nat - 1) as nat * INDENT as nat
    }
}

/// What is to be written anew of a row that is shown by a rendering that
/// showed something before.
#[derive(Clone, Copy, Debug, PartialEq, Eq, Structural)]
pub struct ItemPatch {
    /// Whether the arrow is to be shown or hidden, where that changes.
    pub arrow: Option<bool>,
    /// Whether the row is expanded, where that changes.
    pub expanded: Option<bool>,
    /// Whether key, icon and title are to be written anew.
    pub content: bool,
}

/// What a rendering shows of its row. The visual elements are kept
/// elsewhere, by the number of the rendering.
#[derive(Clone, Copy, Debug, PartialEq, Eq, Structural)]
pub struct RenderedItem {
    pub hash: HashType,
    pub expandable: bool,
    pub expanded: bool,
    pub y: usize,
    pub x: usize,
}

/// The rendering of an item at the given place.
pub open spec fn painted<I: TreeItem + ?Sized>(item: &I, y: usize, x: usize) -> RenderedItem {
    RenderedItem {
        hash: item.spec_hash(),
        expandable: item.spec_expandable(),
        expanded: item.spec_expanded(),
        y,
        x,
    }
}

/// What is to be written anew when a rendering goes on to show an item:
/// the arrow and the expanded state where they differ, and the content
/// where the fingerprints differ.
pub open spec fn patch_for<I: TreeItem + ?Sized>(rendered: RenderedItem, item: &I) -> ItemPatch {
    ItemPatch {
        arrow: if rendered.expandable != item.spec_expandable() {
            Some(item.spec_expandable())
        } else {
            None
        },
        expanded: if rendered.expanded != item.spec_expanded() {
            Some(item.spec_expanded())
        } else {
            None
        },
        content: rendered.hash != item.spec_hash(),
    }
}

/// What is written of an item that a new rendering shows: everything.
pub open spec fn full_patch<I: TreeItem + ?Sized>(item: &I) -> ItemPatch {
    ItemPatch {
        arrow: Some(item.spec_expandable()),
        expanded: Some(item.spec_expanded()),
        content: true,
    }
}

impl RenderedItem {
    /// A new rendering of the item at the given place.
    pub fn render<I: TreeItem + ?Sized>(item: &I, y: usize, x: usize) -> (rendered: RenderedItem)
        ensures
            rendered == painted(item, y, x),
    {
        RenderedItem {
            hash: item.hash(),
            expandable: item.expandable(),
            expanded: item.expanded(),
            y,
            x,
        }
    }

    /// Flips whether the rendering shows its row as expanded.
    pub fn toggle_expanded(&mut self)
        ensures
            *final(self) == (RenderedItem { expanded: !old(self).expanded, ..*old(self) }),
    {
        self.expanded = !self.expanded;
    }

    /// Moves the rendering to the given place.
    pub fn update_style(&mut self, y: usize, x: usize)
        ensures
            *final(self) == (RenderedItem { y, x, ..*old(self) }),
    {
        self.y = y;
        self.x = x;
    }

    /// Lets the rendering show the item, and says what is to be written
    /// anew. Where the fingerprint of the item is the one that the
    /// rendering showed, key, icon and title are left alone.
    pub fn update_item<I: TreeItem + ?Sized>(&mut self, item: &I) -> (patch: ItemPatch)
        ensures
            patch == patch_for(*old(self), item),
            *final(self) == painted(item, old(self).y, old(self).x),
    {
        let mut patch = ItemPatch { arrow: None, expanded: None, content: false };
        let expandable = item.expandable();
        if self.expandable != expandable {
            self.expandable = expandable;
            patch.arrow = Some(expandable);
        }
        if self.expanded != item.expanded() {
            self.toggle_expanded();
            patch.expanded = Some(self.expanded);
        }
        let hash = item.hash();
        if hash == self.hash {
            return patch;
        }
        self.hash = hash;
        patch.content = true;
        patch
    }
}

/// Where the rendering of a row comes from.
#[derive(Clone, Copy, Debug, PartialEq, Eq, Structural)]
pub enum Source {
    /// The rendering showed the row before.
    Kept,
    /// The rendering was taken from the pool.
    Pooled,
    /// The rendering is new: the pool was empty.
    Created,
}

/// A row of the window and the rendering that shows it.
#[derive(Clone, Copy, Debug, PartialEq, Eq, Structural)]
pub struct Placed {
    /// The number of the rendering.
    pub slot: usize,
    /// Where the rendering comes from.
    pub source: Source,
    /// The index of the row.
    pub index: usize,
    /// The key of the item of the row.
    pub key: KeyType,
    /// The distance of the row from the top, in pixels.
    pub y: usize,
    /// The distance of the row from the left edge, in pixels.
    pub x: usize,
    /// What is to be written anew.
    pub patch: ItemPatch,
}

/// What an update of the window asks of the surface: the height of the
/// scrolled content, the rows to show with their renderings, from top to
/// bottom, and the renderings to take off the surface.
pub struct WindowUpdate {
    pub scroll_height: usize,
    pub placed: Vec<Placed>,
    pub released: Vec<usize>,
}

/// The renderings of a window: which rendering shows which key, what each
/// rendering shows, and which renderings wait in the pool.
pub struct Pooling {
    /// The keys that are shown, each with the number of its rendering.
    pub rendered: Seq<Entry>,
    /// What each rendering shows, by its number.
    pub items: Seq<RenderedItem>,
    /// The numbers of the renderings that are free; the last is taken
    /// first.
    pub pool: Seq<usize>,
}

impl Pooling {
    /// Every rendering either shows one key or waits once in the pool.
    pub open spec fn wf(self) -> bool {
        &&& keys_distinct(self.rendered)
        &&& forall|i: int|
            0 <= i < self.rendered.len() ==> (#[trigger] self.rendered[i]).1 < self.items.len()
        &&& forall|i: int, j: int|
            0 <= i < j < self.rendered.len() ==> (#[trigger] self.rendered[i]).1 != (
            #[trigger] self.rendered[j]).1
        &&& forall|i: int| 0 <= i < self.pool.len() ==> (#[trigger] self.pool[i]) < self.items.len()
        &&& forall|i: int, j: int|
            0 <= i < j < self.pool.len() ==> (#[trigger] self.pool[i]) != (#[trigger] self.pool[j])
        &&& forall|i: int, j: int|
            0 <= i < self.rendered.len() && 0 <= j < self.pool.len() ==> (
            #[trigger] self.rendered[i]).1 != (#[trigger] self.pool[j])
        &&& self.rendered.len() + self.pool.len() == self.items.len()
    }
}

/// The number of rows among the first `upto` rows of the window whose key
/// no rendering shows.
pub open spec fn misses<I: TreeItem>(rendered: Seq<Entry>, rows: Seq<I>, first: int, upto: int) -> nat
    decreases upto,
{
    if upto <= 0 {
        0
    } else {
        misses(rendered, rows, first, upto - 1) + if position_of(
            rendered,
            rows[first + upto - 1].spec_key(),
        ) is None {
            1nat
        } else {
            0nat
        }
    }
}

/// The rendering that shows the row with index `first + k`.
///
/// A rendering that shows the key of the row stays with it. For the other
/// rows renderings are taken from the end of the pool, in the order of the
/// rows, and new ones are made once the pool is empty.
pub open spec fn slot_for<I: TreeItem>(before: Pooling, rows: Seq<I>, first: int, k: int) -> (
    usize,
    Source,
) {
    let missed = misses(before.rendered, rows, first, k);
    match value_of(before.rendered, rows[first + k].spec_key()) {
        Some(slot) => (slot, Source::Kept),
        None => if missed < before.pool.len() {
            (before.pool[before.pool.len() - 1 - missed], Source::Pooled)
        } else {
            ((before.items.len() + missed - before.pool.len()) as usize, Source::Created)
        },
    }
}

/// The row with index `first + k` and the rendering that shows it.
pub open spec fn placement<I: TreeItem>(
    before: Pooling,
    rows: Seq<I>,
    first: int,
    k: int,
    item_height: nat,
) -> Placed {
    let item = rows[first + k];
    let (slot, source) = slot_for(before, rows, first, k);
    Placed {
        slot,
        source,
        index: (first + k) as usize,
        key: item.spec_key(),
        y: ((first + k) * item_height) as usize,
        x: shift(item.spec_depth(), item.spec_expandable()) as usize,
        patch: if source == Source::Created {
            full_patch(&item)
        } else {
            patch_for(before.items[slot as int], &item)
        },
    }
}

/// The keys of the first `count` rows of the window, each with the number
/// of its rendering.
pub open spec fn placed_entries<I: TreeItem>(
    before: Pooling,
    rows: Seq<I>,
    first: int,
    count: int,
) -> Seq<Entry> {
    Seq::new(
        count as nat,
        |k: int| (rows[first + k].spec_key(), slot_for(before, rows, first, k).0),
    )
}

/// The numbers of the renderings that showed a key that is no longer
/// shown, in the order in which they were first used.
pub open spec fn released_slots(before: Seq<Entry>, after: Seq<Entry>) -> Seq<usize>
    decreases before.len(),
{
    if before.len() == 0 {
        Seq::empty()
    } else if position_of(after, before.last().0) is None {
        released_slots(before.drop_last(), after).push(before.last().1)
    } else {
        released_slots(before.drop_last(), after)
    }
}

/// The number of renderings that are taken from the pool for a window of
/// `count` rows.
pub open spec fn taken<I: TreeItem>(before: Pooling, rows: Seq<I>, first: int, count: int) -> nat {
    if misses(before.rendered, rows, first, count) < before.pool.len() {
        misses(before.rendered, rows, first, count)
    } else {
        before.pool.len()
    }
}

/// The number of renderings that are made for a window of `count` rows.
pub open spec fn made<I: TreeItem>(before: Pooling, rows: Seq<I>, first: int, count: int) -> nat {
    (misses(before.rendered, rows, first, count) - taken(before, rows, first, count)) as nat
}

/// The renderings after the rows from `first` up to `end` have been
/// placed.
///
/// The shown keys are those of the rows, each with the rendering that
/// [`slot_for`] names. Each of these renderings shows its row at its place,
/// and the others show what they showed. The pool has lost the renderings
/// that were taken from it and gained those whose key is no longer shown.
pub open spec fn windowed<I: TreeItem>(
    before: Pooling,
    after: Pooling,
    rows: Seq<I>,
    first: int,
    end: int,
    item_height: nat,
) -> bool {
    let count = if first < end {
        end - first
    } else {
        0
    };
    &&& after.rendered == placed_entries(before, rows, first, count)
    &&& after.items.len() == before.items.len() + made(before, rows, first, count)
    &&& forall|k: int|
        #![trigger slot_for(before, rows, first, k)]
        0 <= k < count ==> after.items[slot_for(before, rows, first, k).0 as int] == painted(
            &rows[first + k],
            placement(before, rows, first, k, item_height).y,
            placement(before, rows, first, k, item_height).x,
        )
    &&& forall|s: int|
        0 <= s < before.items.len() && (forall|k: int|
            0 <= k < count ==> (#[trigger] slot_for(before, rows, first, k)).0 != s)
            ==> #[trigger] after.items[s] == before.items[s]
    &&& after.pool == before.pool.take(before.pool.len() - taken(before, rows, first, count))
        + released_slots(before.rendered, after.rendered)
}

/// The number of missed rows does not go down from row to row.
pub proof fn lemma_misses_grow<I: TreeItem>(
    rendered: Seq<Entry>,
    rows: Seq<I>,
    first: int,
    few: int,
    more: int,
)
    requires
        0 <= few <= more,
    ensures
        misses(rendered, rows, first, few) <= misses(rendered, rows, first, more),
        few < more && position_of(rendered, rows[first + few].spec_key()) is None ==> misses(
            rendered,
            rows,
            first,
            few,
        ) < misses(rendered, rows, first, more),
    decreases more - few,
{
    if few < more {
        lemma_misses_grow(rendered, rows, first, few + 1, more);
    }
}

/// Rows with different keys are shown by different renderings.
pub proof fn lemma_slots_differ<I: TreeItem>(
    before: Pooling,
    rows: Seq<I>,
    first: int,
    j: int,
    k: int,
)
    requires
        before.wf(),
        0 <= j < k,
        rows[first + j].spec_key() != rows[first + k].spec_key(),
        before.items.len() + made(before, rows, first, k) <= usize::MAX,
    ensures
        slot_for(before, rows, first, j).0 != slot_for(before, rows, first, k).0,
{
    let key_j = rows[first + j].spec_key();
    let key_k = rows[first + k].spec_key();
    lemma_position_of(before.rendered, key_j);
    lemma_position_of(before.rendered, key_k);
    lemma_misses_grow(before.rendered, rows, first, j, k);
}

/// The rendering of a row is one of those that exist once the window is
/// placed, and where it existed before and the row does not keep it, it
/// shows no key.
pub proof fn lemma_slot_bound<I: TreeItem>(
    before: Pooling,
    rows: Seq<I>,
    first: int,
    k: int,
    count: int,
)
    requires
        before.wf(),
        0 <= k < count,
        before.items.len() + made(before, rows, first, count) <= usize::MAX,
    ensures
        slot_for(before, rows, first, k).0 < before.items.len() + made(before, rows, first, count),
        slot_for(before, rows, first, k).1 == Source::Created ==> slot_for(
            before,
            rows,
            first,
            k,
        ).0 >= before.items.len(),
        slot_for(before, rows, first, k).1 != Source::Created ==> slot_for(
            before,
            rows,
            first,
            k,
        ).0 < before.items.len(),
{
    lemma_position_of(before.rendered, rows[first + k].spec_key());
    lemma_misses_grow(before.rendered, rows, first, k, count);
}

/// A rendering that is released showed a key that is no longer shown.
pub proof fn lemma_released_from(before: Seq<Entry>, after: Seq<Entry>, a: int) -> (i: int)
    requires
        0 <= a < released_slots(before, after).len(),
    ensures
        0 <= i < before.len(),
        before[i].1 == released_slots(before, after)[a],
        position_of(after, before[i].0) is None,
    decreases before.len(),
{
    let front = released_slots(before.drop_last(), after);
    if position_of(after, before.last().0) is None && a == front.len() {
        before.len() - 1
    } else {
        let i = lemma_released_from(before.drop_last(), after, a);
        i
    }
}

/// Renderings that are released, in their order, showed keys in that
/// order.
pub proof fn lemma_released_order(before: Seq<Entry>, after: Seq<Entry>, a: int, b: int) -> (found: (
    int,
    int,
))
    requires
        0 <= a < b < released_slots(before, after).len(),
    ensures
        0 <= found.0 < found.1 < before.len(),
        before[found.0].1 == released_slots(before, after)[a],
        before[found.1].1 == released_slots(before, after)[b],
        position_of(after, before[found.0].0) is None,
        position_of(after, before[found.1].0) is None,
    decreases before.len(),
{
    let front = released_slots(before.drop_last(), after);
    if position_of(after, before.last().0) is None && b == front.len() {
        let i = lemma_released_from(before.drop_last(), after, a);
        (i, before.len() - 1)
    } else {
        let found = lemma_released_order(before.drop_last(), after, a, b);
        found
    }
}

/// A key is found among entries and one more exactly if it is found among
/// the entries or is the key of the one.
proof fn lemma_position_of_push(entries: Seq<Entry>, entry: Entry, key: KeyType)
    ensures
        position_of(entries.push(entry), key) is None <==> position_of(entries, key) is None
            && entry.0 != key,
{
    assert(entries.push(entry).drop_last() =~= entries);
}

/// Where no key is shown any more, every rendering is released.
proof fn lemma_released_all(before: Seq<Entry>)
    ensures
        released_slots(before, Seq::empty()).len() == before.len(),
    decreases before.len(),
{
    if before.len() > 0 {
        lemma_released_all(before.drop_last());
    }
}

/// A key that comes to be shown keeps the rendering that showed it from
/// being released, and changes nothing else.
proof fn lemma_released_one_less(before: Seq<Entry>, after: Seq<Entry>, entry: Entry)
    requires
        keys_distinct(before),
        position_of(after, entry.0) is None,
    ensures
        released_slots(before, after).len() == released_slots(before, after.push(entry)).len()
            + if position_of(before, entry.0) is Some {
            1nat
        } else {
            0nat
        },
    decreases before.len(),
{
    if before.len() > 0 {
        let front = before.drop_last();
        assert forall|i: int, j: int| 0 <= i < j < front.len() implies (#[trigger] front[i]).0 != (
        #[trigger] front[j]).0 by {
            assert(front[i] == before[i]);
            assert(front[j] == before[j]);
        }
        lemma_released_one_less(front, after, entry);
        lemma_position_of_push(after, entry, before.last().0);
        lemma_position_of(front, entry.0);
        if position_of(front, entry.0) is Some {
            let i = position_of(front, entry.0)->0;
            assert(front[i] == before[i]);
            assert(before[before.len() - 1] == before.last());
        }
    }
}

/// Of the renderings that showed a key, those that are released are as
/// many as the rows of the window that miss a rendering leave over.
pub proof fn lemma_released_count<I: TreeItem>(
    before: Pooling,
    rows: Seq<I>,
    first: int,
    count: int,
)
    requires
        keys_distinct(before.rendered),
        0 <= count,
        forall|i: int, j: int|
            0 <= i < j < count ==> (#[trigger] rows[first + i]).spec_key() != (
            #[trigger] rows[first + j]).spec_key(),
    ensures
        released_slots(before.rendered, placed_entries(before, rows, first, count)).len() + count
            == before.rendered.len() + misses(before.rendered, rows, first, count),
    decreases count,
{
    if count == 0 {
        assert(placed_entries(before, rows, first, 0) =~= Seq::<Entry>::empty());
        lemma_released_all(before.rendered);
    } else {
        let front = placed_entries(before, rows, first, count - 1);
        let key = rows[first + count - 1].spec_key();
        let entry = (key, slot_for(before, rows, first, count - 1).0);
        lemma_released_count(before, rows, first, count - 1);
        assert(placed_entries(before, rows, first, count) =~= front.push(entry));
        lemma_position_of(front, key);
        if position_of(front, key) is Some {
            let i = position_of(front, key)->0;
            assert(front[i].0 == rows[first + i].spec_key());
        }
        lemma_released_one_less(before.rendered, front, entry);
    }
}

/// An update makes new renderings only when the pool is empty, so there
/// are never more renderings than there were, or than the rows of the
/// window and the keys shown before come to.
pub proof fn lemma_renderings_bound<I: TreeItem>(
    before: Pooling,
    after: Pooling,
    rows: Seq<I>,
    first: int,
    end: int,
    item_height: nat,
)
    requires
        before.wf(),
        windowed(before, after, rows, first, end, item_height),
    ensures
        after.items.len() == before.items.len() || (first < end && after.items.len() <= end - first
            + before.rendered.len()),
{
    if first < end {
        lemma_misses_bound(before.rendered, rows, first, end - first);
    }
}

/// The number of missed rows is at most the number of rows.
proof fn lemma_misses_bound<I: TreeItem>(rendered: Seq<Entry>, rows: Seq<I>, first: int, upto: int)
    requires
        0 <= upto,
    ensures
        misses(rendered, rows, first, upto) <= upto,
    decreases upto,
{
    if upto > 0 {
        lemma_misses_bound(rendered, rows, first, upto - 1);
    }
}

/// The renderings are in order after a window has been placed.
pub proof fn lemma_windowed_ok<I: TreeItem>(
    before: Pooling,
    after: Pooling,
    rows: Seq<I>,
    first: int,
    end: int,
    item_height: nat,
)
    requires
        before.wf(),
        0 <= first,
        end <= rows.len(),
        windowed(before, after, rows, first, end, item_height),
        after.items.len() <= usize::MAX,
        forall|i: int, j: int|
            0 <= i < j < rows.len() ==> (#[trigger] rows[i]).spec_key() != (
            #[trigger] rows[j]).spec_key(),
    ensures
        after.wf(),
{
    let count = if first < end {
        end - first
    } else {
        0
    };
    let kept = before.pool.take(before.pool.len() - taken(before, rows, first, count));
    lemma_released_count(before, rows, first, count);
    assert forall|i: int, j: int| 0 <= i < j < after.rendered.len() implies (
    #[trigger] after.rendered[i]).0 != (#[trigger] after.rendered[j]).0 && after.rendered[i].1
        != after.rendered[j].1 by {
        lemma_misses_grow(before.rendered, rows, first, j, count);
        lemma_slots_differ(before, rows, first, i, j);
    }
    assert forall|i: int| 0 <= i < after.rendered.len() implies (#[trigger] after.rendered[i]).1
        < after.items.len() by {
        lemma_slot_bound(before, rows, first, i, count);
    }
    assert forall|i: int| 0 <= i < after.pool.len() implies (#[trigger] after.pool[i])
        < after.items.len() by {
        if i >= kept.len() {
            let at = lemma_released_from(before.rendered, after.rendered, i - kept.len());
        }
    }
    assert forall|i: int, j: int| 0 <= i < j < after.pool.len() implies (#[trigger] after.pool[i])
        != (#[trigger] after.pool[j]) by {
        if i >= kept.len() {
            let found = lemma_released_order(
                before.rendered,
                after.rendered,
                i - kept.len(),
                j - kept.len(),
            );
        } else if j >= kept.len() {
            let at = lemma_released_from(before.rendered, after.rendered, j - kept.len());
        }
    }
    assert forall|i: int, j: int|
        0 <= i < after.rendered.len() && 0 <= j < after.pool.len() implies (
    #[trigger] after.rendered[i]).1 != (#[trigger] after.pool[j]) by {
        let key = rows[first + i].spec_key();
        lemma_position_of(before.rendered, key);
        lemma_misses_grow(before.rendered, rows, first, i, count);
        if j >= kept.len() {
            let at = lemma_released_from(before.rendered, after.rendered, j - kept.len());
            lemma_position_of(after.rendered, before.rendered[at].0);
        }
    }
}

/// What the window keeps between updates.
pub struct TreeState {
    count: usize,
    rendered: KeyMap,
    items: Vec<RenderedItem>,
    pool: Vec<usize>,
    offset: usize,
    size: (usize, usize),
}

/// The window onto the rows of a tree.
pub struct TreeView {
    state: TreeState,
    item_height: usize,
}

impl TreeView {
    /// The number of rows at the last update.
    pub closed spec fn count(&self) -> usize {
        self.state.count
    }

    /// How far the viewport is scrolled, in pixels.
    pub closed spec fn offset(&self) -> usize {
        self.state.offset
    }

    /// The width and the height of the viewport, in pixels.
    pub closed spec fn size(&self) -> (usize, usize) {
        self.state.size
    }

    /// The height of a row, in pixels.
    pub closed spec fn item_height(&self) -> usize {
        self.item_height
    }

    /// The renderings of the window.
    pub closed spec fn pooling(&self) -> Pooling {
        Pooling {
            rendered: map_entries(self.state.rendered),
            items: self.state.items@,
            pool: self.state.pool@,
        }
    }

    /// Rows have a height, and the renderings are in order.
    pub open spec fn wf(&self) -> bool {
        &&& self.item_height() > 0
        &&& self.pooling().wf()
    }

    /// The index of the first row of the window.
    pub open spec fn first(&self) -> nat {
        first_visible(self.offset() as nat, self.item_height() as nat)
    }

    /// The index behind the last row of the window over `count` rows.
    pub open spec fn end(&self, count: nat) -> nat {
        window_end(count, self.offset() as nat, self.size().1 as nat, self.item_height() as nat)
    }

    /// The view with a viewport of the given extent.
    pub closed spec fn resized(&self, width: usize, height: usize) -> TreeView {
        TreeView {
            state: TreeState { size: (width, height), ..self.state },
            item_height: self.item_height,
        }
    }

    /// The view with a viewport scrolled to the given offset.
    pub closed spec fn scrolled(&self, offset: usize) -> TreeView {
        TreeView { state: TreeState { offset, ..self.state }, item_height: self.item_height }
    }

    /// What resizing and scrolling change of a view, and what they leave.
    pub proof fn lemma_moved(&self, width: usize, height: usize, offset: usize)
        ensures
            self.resized(width, height).size() == (width, height),
            self.resized(width, height).offset() == self.offset(),
            self.resized(width, height).item_height() == self.item_height(),
            self.resized(width, height).pooling() == self.pooling(),
            self.scrolled(offset).offset() == offset,
            self.scrolled(offset).size() == self.size(),
            self.scrolled(offset).item_height() == self.item_height(),
            self.scrolled(offset).pooling() == self.pooling(),
    {
    }

    /// The view is `before` brought up to date with the rows of the
    /// controller, and `update` is what the surface has to do.
    ///
    /// The viewport and the height of the rows are as before. The
    /// renderings are as [`windowed`] says for the rows of the window. The
    /// update names the rows of the window from top to bottom, each with
    /// its rendering as [`placement`] says, and the renderings that went to
    /// the pool.
    pub open spec fn updated<C: TreeController>(
        &self,
        before: &TreeView,
        ctrl: &C,
        update: &WindowUpdate,
    ) -> bool {
        let rows = ctrl.items();
        let first = before.first() as int;
        let end = before.end(rows.len()) as int;
        &&& self.count() == rows.len()
        &&& self.offset() == before.offset()
        &&& self.size() == before.size()
        &&& self.item_height() == before.item_height()
        &&& update.scroll_height == rows.len() * before.item_height()
        &&& windowed(
            before.pooling(),
            self.pooling(),
            rows,
            first,
            end,
            before.item_height() as nat,
        )
        &&& update.placed@.len() == if first < end {
            end - first
        } else {
            0
        }
        &&& forall|k: int|
            0 <= k < update.placed@.len() ==> #[trigger] update.placed@[k] == placement(
                before.pooling(),
                rows,
                first,
                k,
                before.item_height() as nat,
            )
        &&& update.released@ == released_slots(before.pooling().rendered, self.pooling().rendered)
    }

    /// A window over `count` rows with rows of the usual height and a
    /// viewport without extent, scrolled to the top, that has no
    /// renderings yet.
    pub fn render(count: usize) -> (view: TreeView)
        ensures
            view.wf(),
            view.count() == count,
            view.offset() == 0,
            view.size() == (0usize, 0usize),
            view.item_height() == ITEM_HEIGHT,
            view.pooling().rendered.len() == 0,
            view.pooling().items.len() == 0,
            view.pooling().pool.len() == 0,
    {
        TreeView {
            state: TreeState {
                count,
                rendered: map_new(),
                items: Vec::new(),
                pool: Vec::new(),
                offset: 0,
                size: (0, 0),
            },
            item_height: ITEM_HEIGHT,
        }
    }

    /// The height of a row, in pixels.
    pub fn row_height(&self) -> (height: usize)
        ensures
            height == self.item_height(),
    {
        self.item_height
    }

    /// The number of keys that are shown.
    pub fn rendered_len(&self) -> (len: usize)
        ensures
            len == self.pooling().rendered.len(),
    {
        map_len(&self.state.rendered)
    }

    /// The number of renderings that wait in the pool.
    pub fn pool_len(&self) -> (len: usize)
        ensures
            len == self.pooling().pool.len(),
    {
        self.state.pool.len()
    }

    /// The number of renderings that have been made.
    pub fn renderings_len(&self) -> (len: usize)
        ensures
            len == self.pooling().items.len(),
    {
        self.state.items.len()
    }

    /// The number of the rendering that shows the given key.
    pub fn slot_of(&self, key: KeyType) -> (slot: Option<usize>)
        ensures
            slot == value_of(self.pooling().rendered, key),
    {
        map_get(&self.state.rendered, key)
    }

    /// What the rendering with the given number shows.
    pub fn rendering(&self, slot: usize) -> (rendered: Option<RenderedItem>)
        ensures
            rendered == if slot < self.pooling().items.len() {
                Some(self.pooling().items[slot as int])
            } else {
                None
            },
    {
        if slot < self.state.items.len() {
            Some(self.state.items[slot])
        } else {
            None
        }
    }

    /// The index of the first row of the window, and the index behind the
    /// last, for `count` rows.
    pub fn window(&self, count: usize) -> (range: (usize, usize))
        requires
            self.item_height() > 0,
        ensures
            range.0 == self.first(),
            range.1 == self.end(count as nat),
    {
        let first = self.state.offset / self.item_height;
        let height = self.state.size.1;
        let mut visible = height / self.item_height;
        if height % self.item_height != 0 {
            assert(height / self.item_height < usize::MAX) by (nonlinear_arith)
                requires
                    self.item_height >= 2,
                    0 <= height <= usize::MAX,
            ;
            visible = visible + 1;
        }
        let end = if visible > usize::MAX - OVERSCAN || first > usize::MAX - OVERSCAN - visible {
            count
        } else if first + visible + OVERSCAN < count {
            first + visible + OVERSCAN
        } else {
            count
        };
        (first, end)
    }

    /// The distance of the row of an item from the left edge.
    pub fn calc_shift<I: TreeItem + ?Sized>(&self, item: &I) -> (offset: usize)
        ensures
            offset == shift(item.spec_depth(), item.spec_expandable()),
    {
        let depth = item.depth() as usize;
        if !item.expandable() {
            depth * INDENT
        } else if depth == 0 {
            0
        } else {
            (depth - 1) * INDENT
        }
    }

    /// Brings the window up to date with the rows of the controller.
    ///
    /// The window holds the rows from the first that the scroll offset
    /// shows up to the last that the viewport and the overscan hold, as far
    /// as there are rows. Each row of the window gets a rendering: the one
    /// that shows its key already, else one from the pool, else a new one.
    /// The rendering is moved to the place of the row and shows its item.
    /// Renderings whose key is no longer in the window go to the pool.
    pub fn update<C: TreeController>(&mut self, ctrl: &C) -> (update: WindowUpdate)
        requires
            old(self).wf(),
            ctrl.valid(),
            ctrl.items().len() * old(self).item_height() <= usize::MAX,
        ensures
            final(self).wf(),
            final(self).updated(old(self), ctrl, &update),
    {
        let ghost before = self.pooling();
        let ghost rows = ctrl.items();
        let ghost height = self.item_height as nat;
        let count = ctrl.count();
        self.state.count = count;
        let (first, end) = self.window(count);
        assert(self.item_height * count == rows.len() * height) by (nonlinear_arith)
            requires
                self.item_height == height,
                count == rows.len(),
        ;
        let scroll_height = self.item_height * count;
        let size = if first < end {
            end - first
        } else {
            0
        };
        let mut placed: Vec<Placed> = Vec::new();
        let mut next = map_new();
        let mut k: usize = 0;
        while k < size
            invariant
                before == old(self).pooling(),
                before.wf(),
                rows == ctrl.items(),
                ctrl.valid(),
                forall|i: int, j: int|
                    0 <= i < j < rows.len() ==> (#[trigger] rows[i]).spec_key() != (
                    #[trigger] rows[j]).spec_key(),
                height == self.item_height,
                height > 0,
                rows.len() * height <= usize::MAX,
                k <= size,
                size > 0 ==> first + size <= rows.len(),
                self.item_height == old(self).item_height,
                self.state.offset == old(self).state.offset,
                self.state.size == old(self).state.size,
                self.state.count == rows.len(),
                map_entries(self.state.rendered) == before.rendered,
                map_entries(next) == placed_entries(before, rows, first as int, k as int),
                placed@.len() == k,
                forall|j: int|
                    0 <= j < k ==> #[trigger] placed@[j] == placement(
                        before,
                        rows,
                        first as int,
                        j,
                        height,
                    ),
                self.state.pool@ == before.pool.take(
                    before.pool.len() - taken(before, rows, first as int, k as int),
                ),
                self.state.items@.len() == before.items.len() + made(
                    before,
                    rows,
                    first as int,
                    k as int,
                ),
                forall|j: int|
                    #![trigger slot_for(before, rows, first as int, j)]
                    0 <= j < k ==> self.state.items@[slot_for(before, rows, first as int, j).0 as int]
                        == painted(
                        &rows[first + j],
                        placement(before, rows, first as int, j, height).y,
                        placement(before, rows, first as int, j, height).x,
                    ),
                forall|s: int|
                    0 <= s < before.items.len() && (forall|j: int|
                        0 <= j < k ==> (#[trigger] slot_for(before, rows, first as int, j)).0 != s)
                        ==> #[trigger] self.state.items@[s] == before.items[s],
            decreases size - k,
        {
            let index = first + k;
            let item = ctrl.item(index).unwrap();
            let key = item.key();
            assert(index * height <= rows.len() * height) by (nonlinear_arith)
                requires
                    index <= rows.len(),
                    height >= 0,
            ;
            let y = index * self.item_height;
            let x = self.calc_shift(item);
            let ghost aim = slot_for(before, rows, first as int, k as int);
            proof {
                assert(self.state.items@.len() == self.state.items.len());
                lemma_position_of(before.rendered, key);
                lemma_position_of(map_entries(next), key);
                assert forall|j: int| 0 <= j < k implies slot_for(before, rows, first as int, j).0
                    != aim.0 by {
                    lemma_slots_differ(before, rows, first as int, j, k as int);
                }
            }
            let (slot, source, patch) = match map_get(&self.state.rendered, key) {
                Some(slot) => {
                    let mut rendered = self.state.items[slot];
                    rendered.update_style(y, x);
                    let patch = rendered.update_item(item);
                    self.state.items[slot] = rendered;
                    (slot, Source::Kept, patch)
                },
                None => match self.state.pool.pop() {
                    Some(slot) => {
                        let mut rendered = self.state.items[slot];
                        let patch = rendered.update_item(item);
                        rendered.update_style(y, x);
                        self.state.items[slot] = rendered;
                        (slot, Source::Pooled, patch)
                    },
                    None => {
                        let slot = self.state.items.len();
                        self.state.items.push(RenderedItem::render(item, y, x));
                        (
                            slot,
                            Source::Created,
                            ItemPatch {
                                arrow: Some(item.expandable()),
                                expanded: Some(item.expanded()),
                                content: true,
                            },
                        )
                    },
                },
            };
            map_insert(&mut next, key, slot);
            placed.push(Placed { slot, source, index, key, y, x, patch });
            proof {
                assert forall|j: int|
                    #![trigger slot_for(before, rows, first as int, j)]
                    0 <= j < k + 1 implies self.state.items@[slot_for(
                    before,
                    rows,
                    first as int,
                    j,
                ).0 as int] == painted(
                    &rows[first + j],
                    placement(before, rows, first as int, j, height).y,
                    placement(before, rows, first as int, j, height).x,
                ) by {
                    if j < k {
                        lemma_slot_bound(before, rows, first as int, j, k as int);
                    }
                }
            }
            k += 1;
        }
        let ghost after = map_entries(next);
        let ghost pool_then = self.state.pool@;
        let mut released: Vec<usize> = Vec::new();
        let shown = map_len(&self.state.rendered);
        let mut i: usize = 0;
        while i < shown
            invariant
                i <= shown,
                shown == before.rendered.len(),
                map_entries(self.state.rendered) == before.rendered,
                map_entries(next) == after,
                released@ == released_slots(before.rendered.take(i as int), after),
                self.state.pool@ == pool_then + released@,
                after == placed_entries(before, rows, first as int, size as int),
                pool_then == before.pool.take(
                    before.pool.len() - taken(before, rows, first as int, size as int),
                ),
                placed@.len() == size,
                forall|j: int|
                    0 <= j < size ==> #[trigger] placed@[j] == placement(
                        before,
                        rows,
                        first as int,
                        j,
                        height,
                    ),
                self.state.items@.len() == before.items.len() + made(
                    before,
                    rows,
                    first as int,
                    size as int,
                ),
                forall|j: int|
                    #![trigger slot_for(before, rows, first as int, j)]
                    0 <= j < size ==> self.state.items@[slot_for(before, rows, first as int, j).0 as int]
                        == painted(
                        &rows[first + j],
                        placement(before, rows, first as int, j, height).y,
                        placement(before, rows, first as int, j, height).x,
                    ),
                forall|s: int|
                    0 <= s < before.items.len() && (forall|j: int|
                        0 <= j < size ==> (#[trigger] slot_for(before, rows, first as int, j)).0
                            != s) ==> #[trigger] self.state.items@[s] == before.items[s],
                self.item_height == old(self).item_height,
                self.state.offset == old(self).state.offset,
                self.state.size == old(self).state.size,
                self.state.count == rows.len(),
            decreases shown - i,
        {
            let entry = map_get_index(&self.state.rendered, i).unwrap();
            proof {
                assert(before.rendered.take(i + 1).drop_last() =~= before.rendered.take(i as int));
            }
            if map_get(&next, entry.0).is_none() {
                self.state.pool.push(entry.1);
                released.push(entry.1);
            }
            i += 1;
        }
        proof {
            assert(before.rendered.take(shown as int) =~= before.rendered);
        }
        self.state.rendered = next;
        proof {
            assert(self.state.items@.len() == self.state.items.len());
            lemma_windowed_ok(before, self.pooling(), rows, first as int, end as int, height);
        }
        WindowUpdate { scroll_height, placed, released }
    }

    /// Takes the new extent of the viewport and brings the window up to
    /// date.
    pub fn update_size<C: TreeController>(&mut self, ctrl: &C, width: usize, height: usize) -> (update:
        WindowUpdate)
        requires
            old(self).wf(),
            ctrl.valid(),
            ctrl.items().len() * old(self).item_height() <= usize::MAX,
        ensures
            final(self).wf(),
            final(self).updated(&old(self).resized(width, height), ctrl, &update),
    {
        self.state.size = (width, height);
        self.update(ctrl)
    }

    /// Takes the new scroll offset of the viewport and brings the window
    /// up to date.
    pub fn update_scroll<C: TreeController>(&mut self, ctrl: &C, offset_top: usize) -> (update:
        WindowUpdate)
        requires
            old(self).wf(),
            ctrl.valid(),
            ctrl.items().len() * old(self).item_height() <= usize::MAX,
        ensures
            final(self).wf(),
            final(self).updated(&old(self).scrolled(offset_top), ctrl, &update),
    {
        self.state.offset = offset_top;
        self.update(ctrl)
    }
}

} // verus!
