//! What a row shows of a node.

use vstd::prelude::*;

use crate::{HashType, KeyType};

verus! {

/// What the windowed view reads of the item behind a row.
pub trait TreeItem {
    spec fn spec_key(&self) -> KeyType;

    spec fn spec_icon(&self) -> Seq<char>;

    spec fn spec_title(&self) -> Seq<char>;

    spec fn spec_depth(&self) -> u16;

    spec fn spec_expandable(&self) -> bool;

    spec fn spec_hash(&self) -> HashType;

    spec fn spec_expanded(&self) -> bool;

    fn key(&self) -> (key: KeyType)
        ensures
            key == self.spec_key(),
    ;

    /// The class of the icon; empty where the item has none.
    fn icon(&self) -> (icon: &str)
        ensures
            icon@ == self.spec_icon(),
    ;

    fn title(&self) -> (title: &str)
        ensures
            title@ == self.spec_title(),
    ;

    fn depth(&self) -> (depth: u16)
        ensures
            depth == self.spec_depth(),
    ;

    fn expandable(&self) -> (expandable: bool)
        ensures
            expandable == self.spec_expandable(),
    ;

    fn hash(&self) -> (hash: HashType)
        ensures
            hash == self.spec_hash(),
    ;

    fn expanded(&self) -> (expanded: bool)
        ensures
            expanded == self.spec_expanded(),
    ;
}

} // verus!
