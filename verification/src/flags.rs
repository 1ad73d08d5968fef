//! The set of flags that a node, or the data behind it, carries.

use vstd::prelude::*;

verus! {

/// A set over the five flags of the tree.
///
/// `root`, `expanded`, `loading` and `ready` describe the state of a node;
/// `expandable` is a capability of the data behind it.
#[derive(Clone, Copy, Debug, PartialEq, Eq, Structural)]
pub struct TreeFlags {
    /// The node is a root sentinel.
    pub root: bool,
    /// The children of the node are shown.
    pub expanded: bool,
    /// The children of the node have been asked for and have not arrived.
    pub loading: bool,
    /// The children of the node have been loaded at least once.
    pub ready: bool,
    /// The node can have children.
    pub expandable: bool,
}

impl TreeFlags {
    /// The set that holds exactly the flags of `self` and of `other`.
    pub open spec fn spec_union(self, other: TreeFlags) -> TreeFlags {
        TreeFlags {
            root: self.root || other.root,
            expanded: self.expanded || other.expanded,
            loading: self.loading || other.loading,
            ready: self.ready || other.ready,
            expandable: self.expandable || other.expandable,
        }
    }

    /// The set that holds the flags of `self` that `other` lacks.
    pub open spec fn spec_difference(self, other: TreeFlags) -> TreeFlags {
        TreeFlags {
            root: self.root && !other.root,
            expanded: self.expanded && !other.expanded,
            loading: self.loading && !other.loading,
            ready: self.ready && !other.ready,
            expandable: self.expandable && !other.expandable,
        }
    }

    /// The set that holds the flags found in exactly one of `self` and `other`.
    pub open spec fn spec_symmetric_difference(self, other: TreeFlags) -> TreeFlags {
        TreeFlags {
            root: self.root != other.root,
            expanded: self.expanded != other.expanded,
            loading: self.loading != other.loading,
            ready: self.ready != other.ready,
            expandable: self.expandable != other.expandable,
        }
    }

    /// Every flag of `other` is in `self`.
    pub open spec fn spec_contains(self, other: TreeFlags) -> bool {
        &&& other.root ==> self.root
        &&& other.expanded ==> self.expanded
        &&& other.loading ==> self.loading
        &&& other.ready ==> self.ready
        &&& other.expandable ==> self.expandable
    }

    /// The set without any flag.
    pub open spec fn spec_empty() -> TreeFlags {
        TreeFlags { root: false, expanded: false, loading: false, ready: false, expandable: false }
    }

    /// The set without any flag.
    pub fn empty() -> (flags: TreeFlags)
        ensures
            flags == Self::spec_empty(),
    {
        TreeFlags { root: false, expanded: false, loading: false, ready: false, expandable: false }
    }

    /// The set that holds `root` alone.
    pub fn root() -> (flags: TreeFlags)
        ensures
            flags == (TreeFlags { root: true, ..Self::spec_empty() }),
    {
        TreeFlags { root: true, expanded: false, loading: false, ready: false, expandable: false }
    }

    /// The set that holds `expanded` alone.
    pub fn expanded() -> (flags: TreeFlags)
        ensures
            flags == (TreeFlags { expanded: true, ..Self::spec_empty() }),
    {
        TreeFlags { root: false, expanded: true, loading: false, ready: false, expandable: false }
    }

    /// The set that holds `loading` alone.
    pub fn loading() -> (flags: TreeFlags)
        ensures
            flags == (TreeFlags { loading: true, ..Self::spec_empty() }),
    {
        TreeFlags { root: false, expanded: false, loading: true, ready: false, expandable: false }
    }

    /// The set that holds `ready` alone.
    pub fn ready() -> (flags: TreeFlags)
        ensures
            flags == (TreeFlags { ready: true, ..Self::spec_empty() }),
    {
        TreeFlags { root: false, expanded: false, loading: false, ready: true, expandable: false }
    }

    /// The set that holds `expandable` alone.
    pub fn expandable() -> (flags: TreeFlags)
        ensures
            flags == (TreeFlags { expandable: true, ..Self::spec_empty() }),
    {
        TreeFlags { root: false, expanded: false, loading: false, ready: false, expandable: true }
    }

    /// Whether no flag is set.
    pub fn is_empty(&self) -> (b: bool)
        ensures
            b == (*self == Self::spec_empty()),
    {
        !self.root && !self.expanded && !self.loading && !self.ready && !self.expandable
    }

    /// Whether every flag of `other` is set in `self`.
    pub fn contains(&self, other: TreeFlags) -> (b: bool)
        ensures
            b == self.spec_contains(other),
    {
        (!other.root || self.root) && (!other.expanded || self.expanded) && (!other.loading
            || self.loading) && (!other.ready || self.ready) && (!other.expandable
            || self.expandable)
    }

    /// The flags of `self` together with those of `other`.
    pub fn union(self, other: TreeFlags) -> (flags: TreeFlags)
        ensures
            flags == self.spec_union(other),
    {
        TreeFlags {
            root: self.root || other.root,
            expanded: self.expanded || other.expanded,
            loading: self.loading || other.loading,
            ready: self.ready || other.ready,
            expandable: self.expandable || other.expandable,
        }
    }

    /// Sets every flag of `other`.
    pub fn insert(&mut self, other: TreeFlags)
        ensures
            *final(self) == old(self).spec_union(other),
    {
        *self = self.union(other);
    }

    /// Clears every flag of `other`.
    pub fn remove(&mut self, other: TreeFlags)
        ensures
            *final(self) == old(self).spec_difference(other),
    {
        *self = TreeFlags {
            root: self.root && !other.root,
            expanded: self.expanded && !other.expanded,
            loading: self.loading && !other.loading,
            ready: self.ready && !other.ready,
            expandable: self.expandable && !other.expandable,
        };
    }

    /// Flips every flag of `other`.
    pub fn toggle(&mut self, other: TreeFlags)
        ensures
            *final(self) == old(self).spec_symmetric_difference(other),
    {
        *self = TreeFlags {
            root: self.root != other.root,
            expanded: self.expanded != other.expanded,
            loading: self.loading != other.loading,
            ready: self.ready != other.ready,
            expandable: self.expandable != other.expandable,
        };
    }
}

} // verus!
