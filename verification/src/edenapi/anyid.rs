//! Any of the ids by which a client may ask whether the server has a thing.

use super::metadata::all_zero;
use super::metadata::AnyFileContentId;
use super::metadata::ContentId;
use super::wire::HgId;
use vstd::prelude::*;

verus! {

/// The hash by which the server names a changeset.
#[derive(Clone, Copy, Debug, PartialEq, Eq, Hash)]
pub struct BonsaiChangesetId(pub [u8; 32]);

#[derive(Clone, Debug, PartialEq, Eq, Hash)]
pub enum AnyId {
    AnyFileContentId(AnyFileContentId),
    HgFilenodeId(HgId),
    HgTreeId(HgId),
    HgChangesetId(HgId),
    BonsaiChangesetId(BonsaiChangesetId),
}

impl Default for AnyId {
    fn default() -> (id: AnyId)
        ensures
            (id matches AnyId::AnyFileContentId(AnyFileContentId::ContentId(c)) && all_zero(c.0@)),
    {
        AnyId::AnyFileContentId(AnyFileContentId::default())
    }
}

/// The question whether the server has the thing named by `id`, inside
/// the bubble `bubble_id` where one is given. A bubble id is never 0.
#[derive(Clone, Debug, Eq, PartialEq)]
pub struct LookupRequest {
    pub id: AnyId,
    pub bubble_id: Option<u64>,
}

impl LookupRequest {
    /// A bubble id is never 0.
    pub open spec fn wf(&self) -> bool {
        self.bubble_id matches Some(b) ==> b != 0
    }
}

impl Default for LookupRequest {
    fn default() -> (r: LookupRequest)
        ensures
            r.wf(),
            r.bubble_id.is_none(),
            (r.id matches AnyId::AnyFileContentId(AnyFileContentId::ContentId(c)) && all_zero(
                c.0@,
            )),
    {
        LookupRequest { id: AnyId::default(), bubble_id: None }
    }
}

} // verus!
