//! The keys by which a store finds the content of a file.

use crate::edenapi::metadata::Sha256;
use crate::edenapi::wire::HgId;
use vstd::prelude::*;

verus! {

/// A file at a revision: its path in the repository and the hash of
/// that revision of it.
#[derive(Clone, Debug, PartialEq, Eq, Hash)]
pub struct Key {
    pub path: String,
    pub hgid: HgId,
}

/// Kind of content hash stored in the LFS pointer. Adding new types is
/// acceptable, re-ordering or removal is forbidden.
#[derive(PartialEq, Eq, Debug, Hash, Clone)]
pub enum ContentHash {
    Sha256(Sha256),
}

#[derive(Clone, PartialEq, Eq, Debug, Hash)]
pub enum StoreKey {
    HgId(Key),
    /// The key is kept beside the hash to fall back from the LFS protocol
    /// to the non-LFS protocol.
    Content(ContentHash, Option<Key>),
}

impl ContentHash {
    pub fn unwrap_sha256(self) -> (hash: Sha256)
        ensures
            self == ContentHash::Sha256(hash),
    {
        match self {
            ContentHash::Sha256(hash) => hash,
        }
    }
}

impl StoreKey {
    pub fn hgid(key: Key) -> (k: StoreKey)
        ensures
            k == StoreKey::HgId(key),
    {
        StoreKey::HgId(key)
    }

    pub fn content(hash: ContentHash) -> (k: StoreKey)
        ensures
            k == StoreKey::Content(hash, None),
    {
        StoreKey::Content(hash, None)
    }

    /// The key of the file, where the store key holds one.
    pub open spec fn spec_key(self) -> Option<Key> {
        match self {
            StoreKey::HgId(key) => Some(key),
            StoreKey::Content(_, k) => k,
        }
    }

    pub fn maybe_into_key(self) -> (k: Option<Key>)
        ensures
            k == self.spec_key(),
    {
        match self {
            StoreKey::HgId(key) => Some(key),
            StoreKey::Content(_, k) => k,
        }
    }

    pub fn maybe_as_key(&self) -> (k: Option<&Key>)
        ensures
            match k {
                Some(key) => self.spec_key() == Some(*key),
                None => self.spec_key().is_none(),
            },
    {
        match self {
            StoreKey::HgId(key) => Some(key),
            StoreKey::Content(_, k) => k.as_ref(),
        }
    }
}

} // verus!
