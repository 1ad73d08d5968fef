//! The rows that a tree shows, and the map from keys to rows.

use vstd::prelude::*;

use crate::model::NodeModel;
use crate::ordered_map::{keys_distinct, lemma_position_of, position_of, with_entry, Entry};

verus! {

/// The rows taken by the first `upto` children of `i` and by what is shown
/// below them, from top to bottom.
///
/// A child takes a row of its own. Below it come the rows of its children
/// if it is expanded, and nothing if it is not.
pub open spec fn rows_below(nodes: Seq<NodeModel>, i: int, upto: nat) -> Seq<int>
    decreases nodes.len() - i, upto,
{
    if upto == 0 || upto > nodes[i].kids.len() {
        Seq::empty()
    } else {
        let c = nodes[i].kids[upto - 1].1 as int;
        rows_below(nodes, i, (upto - 1) as nat) + (if i < c < nodes.len() {
            subtree_rows(nodes, c)
        } else {
            Seq::empty()
        })
    }
}

/// The row of `c`, then the rows of what is shown below `c`.
pub open spec fn subtree_rows(nodes: Seq<NodeModel>, c: int) -> Seq<int>
    decreases nodes.len() - c, nodes[c].kids.len() + 1,
{
    seq![c] + (if nodes[c].flags.expanded {
        rows_below(nodes, c, nodes[c].kids.len())
    } else {
        Seq::empty()
    })
}

/// The rows shown below `i` once `i` shows its children.
pub open spec fn all_rows_below(nodes: Seq<NodeModel>, i: int) -> Seq<int> {
    rows_below(nodes, i, nodes[i].kids.len())
}

/// The rows that the tree under `i` shows.
///
/// A root takes no row and always shows its children. Any other node takes
/// the first row and shows its children if it is expanded.
pub open spec fn rows(nodes: Seq<NodeModel>, i: int) -> Seq<int> {
    if nodes[i].is_root() {
        all_rows_below(nodes, i)
    } else {
        subtree_rows(nodes, i)
    }
}

/// The entries after each of the rows has gone into the map under the key of
/// its node, in order.
pub open spec fn projected(entries: Seq<Entry>, nodes: Seq<NodeModel>, rows: Seq<int>) -> Seq<Entry>
    decreases rows.len(),
{
    if rows.len() == 0 {
        entries
    } else {
        with_entry(
            projected(entries, nodes, rows.drop_last()),
            nodes[rows.last()].key,
            rows.last() as usize,
        )
    }
}

/// The map from keys to rows that the tree under `i` shows.
pub open spec fn projection(nodes: Seq<NodeModel>, i: int) -> Seq<Entry> {
    projected(Seq::empty(), nodes, rows(nodes, i))
}

/// Rows that go into the map one run after the other go in as one run.
pub proof fn lemma_projected_concat(
    entries: Seq<Entry>,
    nodes: Seq<NodeModel>,
    first: Seq<int>,
    second: Seq<int>,
)
    ensures
        projected(entries, nodes, first + second) == projected(
            projected(entries, nodes, first),
            nodes,
            second,
        ),
    decreases second.len(),
{
    if second.len() == 0 {
    } else {
        assert((first + second).drop_last() =~= first + second.drop_last());
        lemma_projected_concat(entries, nodes, first, second.drop_last());
    }
}

/// Each of the rows goes into the map under a key that the map does not
/// hold yet.
pub open spec fn clean(entries: Seq<Entry>, nodes: Seq<NodeModel>, rows: Seq<int>) -> bool
    decreases rows.len(),
{
    rows.len() == 0 || {
        &&& clean(entries, nodes, rows.drop_last())
        &&& position_of(projected(entries, nodes, rows.drop_last()), nodes[rows.last()].key)
            is None
    }
}

/// Each row with the key of its node, in the order of the rows.
pub open spec fn keyed(nodes: Seq<NodeModel>, rows: Seq<int>) -> Seq<Entry> {
    Seq::new(rows.len(), |j: int| (nodes[rows[j]].key, rows[j] as usize))
}

/// No two nodes that the tree under `i` shows have the same key.
pub open spec fn keys_unique(nodes: Seq<NodeModel>, i: int) -> bool {
    clean(Seq::empty(), nodes, rows(nodes, i))
}

/// Rows go in by fresh keys as one run exactly if they do as two runs.
pub proof fn lemma_clean_concat(
    entries: Seq<Entry>,
    nodes: Seq<NodeModel>,
    first: Seq<int>,
    second: Seq<int>,
)
    ensures
        clean(entries, nodes, first + second) == (clean(entries, nodes, first) && clean(
            projected(entries, nodes, first),
            nodes,
            second,
        )),
    decreases second.len(),
{
    if second.len() == 0 {
    } else {
        assert((first + second).drop_last() =~= first + second.drop_last());
        lemma_clean_concat(entries, nodes, first, second.drop_last());
        lemma_projected_concat(entries, nodes, first, second.drop_last());
    }
}

/// Rows that go into an empty map by fresh keys are all there, each under
/// the key of its node, and no two of them have the same key.
pub proof fn lemma_clean_keyed(nodes: Seq<NodeModel>, rows: Seq<int>)
    requires
        clean(Seq::empty(), nodes, rows),
    ensures
        projected(Seq::empty(), nodes, rows) == keyed(nodes, rows),
        keys_distinct(keyed(nodes, rows)),
    decreases rows.len(),
{
    if rows.len() == 0 {
    } else {
        let front = rows.drop_last();
        lemma_clean_keyed(nodes, front);
        lemma_position_of(keyed(nodes, front), nodes[rows.last()].key);
        assert(keyed(nodes, front).push((nodes[rows.last()].key, rows.last() as usize)) =~= keyed(
            nodes,
            rows,
        ));
    }
}

/// Rows no two of which have the same key go into an empty map by fresh
/// keys.
pub proof fn lemma_distinct_clean(nodes: Seq<NodeModel>, rows: Seq<int>)
    requires
        keys_distinct(keyed(nodes, rows)),
    ensures
        clean(Seq::empty(), nodes, rows),
    decreases rows.len(),
{
    if rows.len() > 0 {
        let front = rows.drop_last();
        assert forall|i: int, j: int| 0 <= i < j < front.len() implies (#[trigger] keyed(
            nodes,
            front,
        )[i]).0 != (#[trigger] keyed(nodes, front)[j]).0 by {
            assert(keyed(nodes, rows)[i] == keyed(nodes, front)[i]);
            assert(keyed(nodes, rows)[j] == keyed(nodes, front)[j]);
        }
        lemma_distinct_clean(nodes, front);
        lemma_clean_keyed(nodes, front);
        lemma_position_of(keyed(nodes, front), nodes[rows.last()].key);
        if position_of(keyed(nodes, front), nodes[rows.last()].key) is Some {
            let i = position_of(keyed(nodes, front), nodes[rows.last()].key)->0;
            assert(keyed(nodes, rows)[i] == keyed(nodes, front)[i]);
            assert(keyed(nodes, rows)[rows.len() - 1].0 == nodes[rows.last()].key);
        }
    }
}

} // verus!
