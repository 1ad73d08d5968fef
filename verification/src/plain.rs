//! Data held in plain fields.

use vstd::prelude::*;

use crate::flags::TreeFlags;
use crate::node::TreeData;
use crate::{HashType, KeyType};

verus! {

/// The 64-bit Fx hash of a key followed by a title.
///
/// The hash is not seeded: it depends on the key and on the characters of the
/// title alone.
pub uninterp spec fn fx_hash_of_key_and_title(key: KeyType, title: Seq<char>) -> HashType;

/// Hashes a key and a title with `fxhash::hash64`.
///
/// Trusted: the result is the Fx hash that `fxhash::hash64` computes of the
/// pair of the key and the title, a function of the two alone.
#[verifier::external_body]
fn hash_key_and_title(key: &KeyType, title: &String) -> (hash: HashType)
    ensures
        hash == fx_hash_of_key_and_title(*key, title@),
{
    fxhash::hash64(&(key, title))
}

/// Data whose key, icon, title and flags are given as they are.
#[derive(Debug)]
pub struct PlainTreeData {
    pub key: KeyType,
    pub icon: Option<String>,
    pub title: String,
    pub flags: TreeFlags,
}

impl TreeData for PlainTreeData {
    open spec fn spec_key(&self) -> KeyType {
        self.key
    }

    open spec fn spec_icon(&self) -> Option<Seq<char>> {
        match self.icon {
            Some(icon) => Some(icon@),
            None => None,
        }
    }

    open spec fn spec_title(&self) -> Seq<char> {
        self.title@
    }

    open spec fn spec_hash(&self) -> HashType {
        fx_hash_of_key_and_title(self.key, self.title@)
    }

    open spec fn spec_flags(&self) -> TreeFlags {
        self.flags
    }

    fn key(&self) -> (key: KeyType) {
        self.key
    }

    fn icon(&self) -> (icon: Option<&str>) {
        match &self.icon {
            Some(icon) => Some(icon.as_str()),
            None => None,
        }
    }

    fn title(&self) -> (title: &str) {
        self.title.as_str()
    }

    fn flags(&self) -> (flags: TreeFlags) {
        self.flags
    }

    fn hash(&self) -> (hash: HashType) {
        hash_key_and_title(&self.key, &self.title)
    }
}

} // verus!
