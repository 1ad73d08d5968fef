//! The data of a root sentinel.

use vstd::prelude::*;

use crate::flags::TreeFlags;
use crate::node::TreeData;
use crate::{HashType, KeyType, ROOT_KEY};

verus! {

/// The data of a root sentinel: the reserved key, no icon, expandable.
#[derive(Debug)]
pub struct RootData;

impl TreeData for RootData {
    open spec fn spec_key(&self) -> KeyType {
        ROOT_KEY
    }

    open spec fn spec_icon(&self) -> Option<Seq<char>> {
        None
    }

    open spec fn spec_title(&self) -> Seq<char> {
        "ROOT"@
    }

    open spec fn spec_hash(&self) -> HashType {
        u64::MAX
    }

    open spec fn spec_flags(&self) -> TreeFlags {
        TreeFlags { root: true, expandable: true, ..TreeFlags::spec_empty() }
    }

    fn key(&self) -> (key: KeyType) {
        ROOT_KEY
    }

    fn icon(&self) -> (icon: Option<&str>) {
        None
    }

    fn title(&self) -> (title: &str) {
        "ROOT"
    }

    fn hash(&self) -> (hash: HashType) {
        u64::MAX
    }

    fn flags(&self) -> (flags: TreeFlags) {
        TreeFlags::expandable().union(TreeFlags::root())
    }
}

} // verus!
