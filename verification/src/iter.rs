//! Cursors into the rows of a tree, the search for a row by its index, and
//! the walk over the rows from a given row on.

use vstd::prelude::*;

use crate::error::TreeError;
use crate::model::{node_ok, tree_ok, NodeModel};
use crate::node::{TreeArena, TreeNode};
use crate::projection::{all_rows_below, rows_below, subtree_rows};

verus! {

/// A node together with its place among the children of its parent.
#[derive(Clone, Copy, Debug, PartialEq, Eq, Structural)]
pub struct TreeCursor {
    pub node: TreeNode,
    pub offset: usize,
}

/// The cursor names the child of `parent` at the cursor's offset.
pub open spec fn step_ok(nodes: Seq<NodeModel>, parent: int, cursor: TreeCursor) -> bool {
    &&& 0 <= parent < nodes.len()
    &&& cursor.offset < nodes[parent].kids.len()
    &&& nodes[parent].kids[cursor.offset as int].1 == cursor.node.index
}

/// The cursors lead from `top` down to a row that is shown: the first names
/// a child of `top`, each of the others a child of the node before it, and
/// every node that the path goes through is expanded.
pub open spec fn cursor_path(nodes: Seq<NodeModel>, top: int, path: Seq<TreeCursor>) -> bool
    decreases path.len(),
{
    if path.len() == 0 {
        false
    } else if path.len() == 1 {
        step_ok(nodes, top, path[0])
    } else {
        let before = path[path.len() - 2].node@;
        &&& cursor_path(nodes, top, path.drop_last())
        &&& nodes[before].flags.expanded
        &&& step_ok(nodes, before, path.last())
    }
}

/// The index, among the rows below `top`, of the row that the path leads to.
pub open spec fn path_index(nodes: Seq<NodeModel>, top: int, path: Seq<TreeCursor>) -> int
    decreases path.len(),
{
    if path.len() == 0 {
        0
    } else if path.len() == 1 {
        rows_below(nodes, top, path[0].offset as nat).len() as int
    } else {
        let before = path[path.len() - 2].node@;
        path_index(nodes, top, path.drop_last()) + 1 + rows_below(
            nodes,
            before,
            path.last().offset as nat,
        ).len()
    }
}

/// The rows of the first children of a node are the first of the rows of
/// more of its children.
pub proof fn lemma_rows_prefix(nodes: Seq<NodeModel>, i: int, few: nat, more: nat)
    requires
        few <= more <= nodes[i].kids.len(),
    ensures
        rows_below(nodes, i, few).len() <= rows_below(nodes, i, more).len(),
        rows_below(nodes, i, more).take(rows_below(nodes, i, few).len() as int) == rows_below(
            nodes,
            i,
            few,
        ),
    decreases more,
{
    if few == more {
    } else {
        lemma_rows_prefix(nodes, i, few, (more - 1) as nat);
    }
}

/// Among the rows below a node, the rows of its child at `j` follow those of
/// the children before it.
pub proof fn lemma_kid_block(nodes: Seq<NodeModel>, i: int, j: int)
    requires
        tree_ok(nodes),
        0 <= i < nodes.len(),
        0 <= j < nodes[i].kids.len(),
    ensures
        rows_below(nodes, i, j as nat).len() + subtree_rows(
            nodes,
            nodes[i].kids[j].1 as int,
        ).len() <= all_rows_below(nodes, i).len(),
        forall|k: int|
            0 <= k < subtree_rows(nodes, nodes[i].kids[j].1 as int).len() ==> all_rows_below(
                nodes,
                i,
            )[rows_below(nodes, i, j as nat).len() + k] == subtree_rows(
                nodes,
                nodes[i].kids[j].1 as int,
            )[k],
{
    let c = nodes[i].kids[j].1 as int;
    let all = all_rows_below(nodes, i);
    let upto = rows_below(nodes, i, (j + 1) as nat);
    let front = rows_below(nodes, i, j as nat);
    assert(node_ok(nodes, i));
    lemma_rows_prefix(nodes, i, (j + 1) as nat, nodes[i].kids.len());
    assert forall|k: int| 0 <= k < subtree_rows(nodes, c).len() implies all[front.len() + k]
        == subtree_rows(nodes, c)[k] by {
        assert(all.take(upto.len() as int)[front.len() + k] == upto[front.len() + k]);
    }
}

/// Among the rows below `top`, the row that a path leads to and the rows
/// shown below it stand at the index of the path.
pub proof fn lemma_path_block(nodes: Seq<NodeModel>, top: int, path: Seq<TreeCursor>)
    requires
        tree_ok(nodes),
        cursor_path(nodes, top, path),
    ensures
        0 <= path_index(nodes, top, path),
        path_index(nodes, top, path) + subtree_rows(nodes, path.last().node@).len()
            <= all_rows_below(nodes, top).len(),
        forall|k: int|
            0 <= k < subtree_rows(nodes, path.last().node@).len() ==> all_rows_below(
                nodes,
                top,
            )[path_index(nodes, top, path) + k] == subtree_rows(nodes, path.last().node@)[k],
    decreases path.len(),
{
    let last = path.last();
    if path.len() == 1 {
        lemma_kid_block(nodes, top, last.offset as int);
    } else {
        let before = path[path.len() - 2].node@;
        let front = path.drop_last();
        lemma_path_block(nodes, top, front);
        lemma_kid_block(nodes, before, last.offset as int);
        let rows = all_rows_below(nodes, top);
        let base = path_index(nodes, top, front);
        let shift = rows_below(nodes, before, last.offset as nat).len();
        assert forall|k: int| 0 <= k < subtree_rows(nodes, last.node@).len() implies rows[path_index(
            nodes,
            top,
            path,
        ) + k] == subtree_rows(nodes, last.node@)[k] by {
            assert(rows[base + (1 + shift + k)] == subtree_rows(nodes, before)[1 + shift + k]);
        }
    }
}

/// The row that a path leads to is the row of its last node.
pub proof fn lemma_path_row(nodes: Seq<NodeModel>, top: int, path: Seq<TreeCursor>)
    requires
        tree_ok(nodes),
        cursor_path(nodes, top, path),
    ensures
        0 <= path_index(nodes, top, path) < all_rows_below(nodes, top).len(),
        all_rows_below(nodes, top)[path_index(nodes, top, path)] == path.last().node@,
{
    lemma_path_block(nodes, top, path);
    assert(subtree_rows(nodes, path.last().node@)[0] == path.last().node@);
}

/// Where the search for a row starts: at `top` with no cursor yet, or at the
/// expanded node that the last cursor names.
pub open spec fn search_from(nodes: Seq<NodeModel>, top: int, path: Seq<TreeCursor>) -> int {
    if path.len() == 0 {
        top
    } else {
        path.last().node@
    }
}

/// The index, among the rows below `top`, of the first row below the node
/// where the search stands.
pub open spec fn search_base(nodes: Seq<NodeModel>, top: int, path: Seq<TreeCursor>) -> int {
    if path.len() == 0 {
        0
    } else {
        path_index(nodes, top, path) + 1
    }
}

impl TreeNode {
    /// The path from the node down to the row with the given index among
    /// the rows shown below the node.
    ///
    /// The index counts the rows that are shown: what lies below a node
    /// that is not expanded is passed over, whatever its size.
    pub fn find_by_index(self, arena: &TreeArena, index: usize) -> (found: Result<
        Vec<TreeCursor>,
        TreeError,
    >)
        requires
            arena.wf(),
            arena.has(self),
        ensures
            found is Ok <==> index < all_rows_below(arena@, self@).len(),
            found is Err ==> found == Err::<Vec<TreeCursor>, TreeError>(TreeError::Bounds),
            found is Ok ==> {
                &&& cursor_path(arena@, self@, found->Ok_0@)
                &&& path_index(arena@, self@, found->Ok_0@) == index
                &&& found->Ok_0@.last().node@ == all_rows_below(arena@, self@)[index as int]
            },
    {
        let mut stack: Vec<TreeCursor> = Vec::new();
        match self.find_by_index_internal(arena, self, index, &mut stack) {
            Ok(()) => {
                proof {
                    lemma_path_row(arena@, self@, stack@);
                }
                Ok(stack)
            },
            Err(_) => Err(TreeError::Bounds),
        }
    }

    /// Searches the rows below `at` for the row with index `target` among
    /// them, where `stack` leads from `self` down to `at`.
    ///
    /// Where the row is found, the cursors that lead from `at` to it are put
    /// on `stack`. Where it is not, `stack` is left as it was and the number
    /// of rows below `at` is returned.
    fn find_by_index_internal(
        self,
        arena: &TreeArena,
        at: TreeNode,
        target: usize,
        stack: &mut Vec<TreeCursor>,
    ) -> (found: Result<(), usize>)
        requires
            arena.wf(),
            arena.has(self),
            arena.has(at),
            search_from(arena@, self@, old(stack)@) == at@,
            old(stack)@.len() > 0 ==> cursor_path(arena@, self@, old(stack)@)
                && arena@[at@].flags.expanded,
        ensures
            found is Ok <==> target < all_rows_below(arena@, at@).len(),
            found is Ok ==> {
                &&& cursor_path(arena@, self@, final(stack)@)
                &&& path_index(arena@, self@, final(stack)@) == search_base(
                    arena@,
                    self@,
                    old(stack)@,
                ) + target
            },
            found is Err ==> {
                &&& final(stack)@ == old(stack)@
                &&& found->Err_0 == all_rows_below(arena@, at@).len()
            },
        decreases arena@.len() - at@,
    {
        let ghost nodes = arena@;
        let ghost path = stack@;
        let len = at.child_count(arena);
        let mut offset: usize = 0;
        let mut j: usize = 0;
        while j < len
            invariant
                nodes == arena@,
                arena.wf(),
                arena.has(self),
                arena.has(at),
                len == nodes[at@].kids.len(),
                j <= len,
                stack@ == path,
                path == old(stack)@,
                search_from(nodes, self@, path) == at@,
                path.len() > 0 ==> cursor_path(nodes, self@, path) && nodes[at@].flags.expanded,
                offset == rows_below(nodes, at@, j as nat).len(),
                offset <= target,
            decreases len - j,
        {
            let child = at.child_at(arena, j).unwrap();
            let cursor = TreeCursor { node: child, offset: j };
            proof {
                assert(node_ok(nodes, at@));
                lemma_rows_prefix(nodes, at@, (j + 1) as nat, len as nat);
                assert(rows_below(nodes, at@, (j + 1) as nat) == rows_below(nodes, at@, j as nat)
                    + subtree_rows(nodes, child@));
                let longer = path.push(cursor);
                assert(longer.drop_last() =~= path);
            }
            if offset == target {
                stack.push(cursor);
                return Ok(());
            }
            offset = offset + 1;
            if child.flags(arena).expanded {
                stack.push(cursor);
                match self.find_by_index_internal(arena, child, target - offset, stack) {
                    Ok(()) => {
                        return Ok(());
                    },
                    Err(count) => {
                        stack.pop();
                        offset = offset + count;
                    },
                }
            }
            j += 1;
        }
        Err(offset)
    }
}

/// The node above the last cursor of a path: `top` for a path of one
/// cursor, else the node of the cursor before the last.
pub open spec fn above_last(top: int, path: Seq<TreeCursor>) -> int {
    if path.len() <= 1 {
        top
    } else {
        path[path.len() - 2].node@
    }
}

/// The last cursor of a path names a child of the node above it, which is a
/// node of the tree.
pub proof fn lemma_path_last(nodes: Seq<NodeModel>, top: int, path: Seq<TreeCursor>)
    requires
        tree_ok(nodes),
        cursor_path(nodes, top, path),
    ensures
        step_ok(nodes, above_last(top, path), path.last()),
        above_last(top, path) < path.last().node@ < nodes.len(),
        nodes[path.last().node@].parent == above_last(top, path),
        !nodes[path.last().node@].is_root(),
        path.len() > 1 ==> nodes[above_last(top, path)].flags.expanded,
{
    let above = above_last(top, path);
    assert(node_ok(nodes, above));
    assert(node_ok(nodes, path.last().node@));
}

/// A path that goes one child further down leads to the row of that child.
pub proof fn lemma_path_push(
    nodes: Seq<NodeModel>,
    top: int,
    path: Seq<TreeCursor>,
    cursor: TreeCursor,
)
    requires
        cursor_path(nodes, top, path),
        nodes[path.last().node@].flags.expanded,
        step_ok(nodes, path.last().node@, cursor),
    ensures
        cursor_path(nodes, top, path.push(cursor)),
        path_index(nodes, top, path.push(cursor)) == path_index(nodes, top, path) + 1 + rows_below(
            nodes,
            path.last().node@,
            cursor.offset as nat,
        ).len(),
{
    let longer = path.push(cursor);
    assert(longer.drop_last() =~= path);
}

/// A path whose last cursor moves on to the next child of the same parent
/// leads to the row behind the rows of the child that it leaves.
pub proof fn lemma_path_replace(
    nodes: Seq<NodeModel>,
    top: int,
    path: Seq<TreeCursor>,
    cursor: TreeCursor,
)
    requires
        tree_ok(nodes),
        cursor_path(nodes, top, path),
        step_ok(nodes, above_last(top, path), cursor),
        cursor.offset == path.last().offset + 1,
    ensures
        cursor_path(nodes, top, path.drop_last().push(cursor)),
        path_index(nodes, top, path.drop_last().push(cursor)) == path_index(nodes, top, path)
            + subtree_rows(nodes, path.last().node@).len(),
{
    let moved = path.drop_last().push(cursor);
    lemma_path_last(nodes, top, path);
    assert(moved.drop_last() =~= path.drop_last());
}

impl TreeCursor {
    /// The cursor of the next child of the same parent, if there is one.
    pub fn next_sibling(&self, arena: &TreeArena) -> (next: Option<TreeCursor>)
        requires
            arena.wf(),
            arena.has(self.node),
        ensures
            next is Some <==> self.offset + 1 < arena@[arena@[self.node@].parent].kids.len(),
            next is Some ==> {
                &&& next->0.offset == self.offset + 1
                &&& next->0.node.index == arena@[arena@[self.node@].parent].kids[self.offset
                    + 1].1
            },
    {
        proof {
            assert(node_ok(arena@, self.node@));
        }
        let parent = self.node.parent(arena);
        let count = parent.child_count(arena);
        if count > 0 && self.offset < count - 1 {
            let next_offset = self.offset + 1;
            match parent.child_at(arena, next_offset) {
                Some(node) => Some(TreeCursor { node, offset: next_offset }),
                None => None,
            }
        } else {
            None
        }
    }
}

/// A walk over the rows shown below a node, from a given row on.
///
/// The walk holds the path to the row that comes next. It reads the tree
/// anew at each step and does not start over.
pub struct TreeNodeIterator {
    top: TreeNode,
    stack: Vec<TreeCursor>,
}

impl TreeNodeIterator {
    /// The node below which the walk goes.
    pub closed spec fn top(&self) -> TreeNode {
        self.top
    }

    /// The path to the row that comes next; empty once the rows are spent.
    pub closed spec fn path(&self) -> Seq<TreeCursor> {
        self.stack@
    }

    /// The path leads to a row below the top, or the rows are spent.
    pub open spec fn wf(&self, arena: &TreeArena) -> bool {
        &&& arena.has(self.top())
        &&& self.path().len() > 0 ==> cursor_path(arena@, self.top()@, self.path())
    }

    /// The index of the row that comes next among the rows below the top.
    pub open spec fn position(&self, arena: &TreeArena) -> int {
        if self.path().len() == 0 {
            all_rows_below(arena@, self.top()@).len() as int
        } else {
            path_index(arena@, self.top()@, self.path())
        }
    }

    /// The rows that are still to come.
    pub open spec fn remaining(&self, arena: &TreeArena) -> Seq<int> {
        all_rows_below(arena@, self.top()@).skip(self.position(arena))
    }

    /// The walk over the rows shown below `root` that starts at the row
    /// with index `range.start`. The end of the range does not bound the
    /// walk: it goes on for as long as it is asked and rows are left.
    pub fn new(arena: &TreeArena, root: TreeNode, range: std::ops::Range<usize>) -> (walk: Result<
        TreeNodeIterator,
        TreeError,
    >)
        requires
            arena.wf(),
            arena.has(root),
        ensures
            walk is Ok <==> range.start < all_rows_below(arena@, root@).len(),
            walk is Err ==> walk->Err_0 == TreeError::Bounds,
            walk is Ok ==> {
                &&& walk->Ok_0.wf(arena)
                &&& walk->Ok_0.top() == root
                &&& walk->Ok_0.position(arena) == range.start
            },
    {
        match root.find_by_index(arena, range.start) {
            Ok(stack) => Ok(TreeNodeIterator { top: root, stack }),
            Err(error) => Err(error),
        }
    }

    /// Hands out the row that comes next and moves on to the row behind it.
    ///
    /// From an expanded node with children the walk goes down to the first
    /// child. Else it goes on to the next child of the same parent. Where
    /// there is none it goes up, level by level, until a node has a next
    /// sibling; where no level has one, the rows are spent.
    pub fn next(&mut self, arena: &TreeArena) -> (node: Option<TreeNode>)
        requires
            arena.wf(),
            old(self).wf(arena),
        ensures
            final(self).wf(arena),
            final(self).top() == old(self).top(),
            old(self).remaining(arena).len() == 0 ==> node is None && final(self).path() == old(
                self,
            ).path(),
            old(self).remaining(arena).len() > 0 ==> {
                &&& node is Some
                &&& node->0@ == old(self).remaining(arena)[0]
                &&& final(self).position(arena) == old(self).position(arena) + 1
                &&& final(self).remaining(arena) == old(self).remaining(arena).skip(1)
            },
    {
        let ghost nodes = arena@;
        let ghost top = self.top@;
        let ghost rows = all_rows_below(nodes, top);
        let ghost start = self.stack@;
        if self.stack.len() == 0 {
            return None;
        }
        let ghost at = path_index(nodes, top, start);
        let frame = self.stack[self.stack.len() - 1];
        proof {
            lemma_path_row(nodes, top, start);
            lemma_path_last(nodes, top, start);
        }
        if frame.node.flags(arena).expanded {
            match frame.node.first_child(arena) {
                Some(child) => {
                    let cursor = TreeCursor { node: child, offset: 0 };
                    proof {
                        lemma_path_push(nodes, top, start, cursor);
                    }
                    self.stack.push(cursor);
                    return Some(frame.node);
                },
                None => {},
            }
        }
        loop
            invariant
                nodes == arena@,
                top == self.top@,
                top == old(self).top@,
                rows == all_rows_below(nodes, top),
                arena.wf(),
                arena.has(self.top),
                self.stack@.len() > 0,
                start == old(self).stack@,
                start.len() > 0,
                at == path_index(nodes, top, start),
                0 <= at < rows.len(),
                rows[at] == frame.node@,
                cursor_path(nodes, top, self.stack@),
                path_index(nodes, top, self.stack@) + subtree_rows(
                    nodes,
                    self.stack@.last().node@,
                ).len() == at + 1,
            decreases self.stack@.len(),
        {
            let ghost path = self.stack@;
            let current = self.stack[self.stack.len() - 1];
            proof {
                lemma_path_last(nodes, top, path);
            }
            let sibling = current.next_sibling(arena);
            self.stack.pop();
            match sibling {
                Some(cursor) => {
                    self.stack.push(cursor);
                    proof {
                        lemma_path_replace(nodes, top, path, cursor);
                    }
                    return Some(frame.node);
                },
                None => {
                    if self.stack.len() == 0 {
                        return Some(frame.node);
                    }
                },
            }
        }
    }
}

impl TreeNode {
    /// The walk over the rows shown below the node that starts at the row
    /// with index `range.start`.
    pub fn slice(self, arena: &TreeArena, range: std::ops::Range<usize>) -> (walk: Result<
        TreeNodeIterator,
        TreeError,
    >)
        requires
            arena.wf(),
            arena.has(self),
        ensures
            walk is Ok <==> range.start < all_rows_below(arena@, self@).len(),
            walk is Err ==> walk->Err_0 == TreeError::Bounds,
            walk is Ok ==> {
                &&& walk->Ok_0.wf(arena)
                &&& walk->Ok_0.top() == self
                &&& walk->Ok_0.position(arena) == range.start
            },
    {
        TreeNodeIterator::new(arena, self, range)
    }
}

} // verus!
