//! The forms in which values travel on the wire.
//!
//! A form on the wire is kept apart from the value it stands for, so
//! that either can change without the other. An enum on the wire has a
//! variant `Unknown`, which is what a reader makes of a variant that it
//! does not know; turning it into a value fails.

use crate::id::Id;
use vstd::prelude::*;

verus! {

/// The hash by which Mercurial names a file, a tree or a changeset.
#[derive(Clone, Copy, Debug, PartialEq, Eq, Hash)]
pub struct HgId(pub [u8; 20]);

#[derive(Clone, Copy, Debug, PartialEq, Eq, Hash)]
pub struct WireHgId(pub [u8; 20]);

/// A byte slice did not have the length of the hash that it was to be.
#[derive(Copy, Clone, Debug, PartialEq, Eq, Structural)]
pub struct TryFromBytesError {
    pub expected_len: usize,
    pub found_len: usize,
}

/// Why a form on the wire stands for no value.
#[derive(Debug, PartialEq, Eq)]
pub enum WireToApiConversionError {
    UnrecognizedEnumVariant(&'static str),
    CannotPopulateRequiredField(&'static str),
    PathValidationError(String),
    InvalidUploadTokenType(&'static str),
}

/// The errors that a server reports.
#[derive(Clone, Debug, PartialEq, Eq)]
pub enum EdenApiServerErrorKind {
    OpaqueError(String),
}

#[derive(Clone, Debug, PartialEq, Eq)]
pub enum WireEdenApiServerError {
    OpaqueError(String),
    Unknown,
}

/// The parents of a file or a tree in its history.
#[derive(Copy, Clone, Debug, PartialEq, Eq)]
pub enum Parents {
    NoParents,
    One(HgId),
    Two(HgId, HgId),
}

#[derive(Copy, Clone, Debug, PartialEq, Eq)]
pub enum WireParents {
    NoParents,
    One(WireHgId),
    Two(WireHgId, WireHgId),
    Unknown,
}

/// What a store knows of an entry.
#[derive(Clone, Copy, Debug, PartialEq, Eq, Structural)]
pub struct RevisionstoreMetadata {
    pub size: Option<u64>,
    pub flags: Option<u64>,
}

#[derive(Clone, Copy, Debug, PartialEq, Eq, Structural)]
pub struct WireRevisionstoreMetadata {
    pub size: Option<u64>,
    pub flags: Option<u64>,
}

/// An id of the segmented changelog on the wire: the number itself.
#[derive(Clone, Copy, Debug, PartialEq, Eq, Structural, Ord, PartialOrd)]
pub struct WireDagId(pub u64);

impl HgId {
    /// The hash made of `bytes`; an error where they are not 20.
    pub fn from_slice(bytes: &[u8]) -> (r: Result<HgId, TryFromBytesError>)
        ensures
            match r {
                Ok(id) => bytes@.len() == 20 && id.0@ == bytes@,
                Err(e) => bytes@.len() != 20 && e == (TryFromBytesError {
                    expected_len: 20,
                    found_len: bytes@.len() as usize,
                }),
            },
    {
        if bytes.len() != 20 {
            return Err(TryFromBytesError { expected_len: 20, found_len: bytes.len() });
        }
        let mut hash = [0u8; 20];
        let mut i: usize = 0;
        while i < 20
            invariant
                i <= 20,
                bytes@.len() == 20,
                forall|j: int| 0 <= j < i ==> hash@[j] == bytes@[j],
            decreases 20 - i,
        {
            hash[i] = bytes[i];
            i = i + 1;
        }
        proof {
            assert(hash@ =~= bytes@);
        }
        Ok(HgId(hash))
    }

    pub fn to_wire(self) -> (w: WireHgId)
        ensures
            w.0 == self.0,
    {
        WireHgId(self.0)
    }
}

impl WireHgId {
    pub fn to_api(self) -> (id: HgId)
        ensures
            id.0 == self.0,
    {
        HgId(self.0)
    }
}

impl EdenApiServerErrorKind {
    pub fn to_wire(self) -> (w: WireEdenApiServerError)
        ensures
            (self matches EdenApiServerErrorKind::OpaqueError(s) && w
                == WireEdenApiServerError::OpaqueError(s)),
    {
        match self {
            EdenApiServerErrorKind::OpaqueError(s) => WireEdenApiServerError::OpaqueError(s),
        }
    }
}

impl WireEdenApiServerError {
    pub fn to_api(self) -> (r: Result<EdenApiServerErrorKind, WireToApiConversionError>)
        ensures
            match self {
                WireEdenApiServerError::OpaqueError(s) => r == Ok::<
                    EdenApiServerErrorKind,
                    WireToApiConversionError,
                >(EdenApiServerErrorKind::OpaqueError(s)),
                WireEdenApiServerError::Unknown => (r matches Err(
                    WireToApiConversionError::UnrecognizedEnumVariant(name),
                ) && name@ == "WireEdenApiServerError"@),
            },
    {
        match self {
            WireEdenApiServerError::Unknown => Err(
                WireToApiConversionError::UnrecognizedEnumVariant("WireEdenApiServerError"),
            ),
            WireEdenApiServerError::OpaqueError(s) => Ok(EdenApiServerErrorKind::OpaqueError(s)),
        }
    }
}

impl Parents {
    /// The parents on the wire.
    pub open spec fn spec_to_wire(self) -> WireParents {
        match self {
            Parents::NoParents => WireParents::NoParents,
            Parents::One(a) => WireParents::One(WireHgId(a.0)),
            Parents::Two(a, b) => WireParents::Two(WireHgId(a.0), WireHgId(b.0)),
        }
    }

    pub fn to_wire(self) -> (w: WireParents)
        ensures
            w == self.spec_to_wire(),
    {
        match self {
            Parents::NoParents => WireParents::NoParents,
            Parents::One(id) => WireParents::One(id.to_wire()),
            Parents::Two(id1, id2) => WireParents::Two(id1.to_wire(), id2.to_wire()),
        }
    }
}

impl WireParents {
    /// The parents that the form on the wire stands for, unless it is `Unknown`.
    pub open spec fn spec_to_api(self) -> Option<Parents> {
        match self {
            WireParents::Unknown => None,
            WireParents::NoParents => Some(Parents::NoParents),
            WireParents::One(a) => Some(Parents::One(HgId(a.0))),
            WireParents::Two(a, b) => Some(Parents::Two(HgId(a.0), HgId(b.0))),
        }
    }

    pub fn to_api(self) -> (r: Result<Parents, WireToApiConversionError>)
        ensures
            match r {
                Ok(p) => self.spec_to_api() == Some(p),
                Err(e) => self.spec_to_api().is_none() && (
                e matches WireToApiConversionError::UnrecognizedEnumVariant(name) && name@
                    == "WireParents"@),
            },
    {
        match self {
            WireParents::Unknown => Err(
                WireToApiConversionError::UnrecognizedEnumVariant("WireParents"),
            ),
            WireParents::NoParents => Ok(Parents::NoParents),
            WireParents::One(id) => Ok(Parents::One(id.to_api())),
            WireParents::Two(id1, id2) => Ok(Parents::Two(id1.to_api(), id2.to_api())),
        }
    }
}

impl Default for WireParents {
    fn default() -> (w: WireParents)
        ensures
            w == WireParents::NoParents,
    {
        WireParents::NoParents
    }
}

impl RevisionstoreMetadata {
    pub fn to_wire(self) -> (w: WireRevisionstoreMetadata)
        ensures
            w.size == self.size,
            w.flags == self.flags,
    {
        WireRevisionstoreMetadata { size: self.size, flags: self.flags }
    }
}

impl WireRevisionstoreMetadata {
    pub fn to_api(self) -> (m: RevisionstoreMetadata)
        ensures
            m.size == self.size,
            m.flags == self.flags,
    {
        RevisionstoreMetadata { size: self.size, flags: self.flags }
    }
}

impl Default for WireRevisionstoreMetadata {
    fn default() -> (w: WireRevisionstoreMetadata)
        ensures
            w == (WireRevisionstoreMetadata { size: None, flags: None }),
    {
        WireRevisionstoreMetadata { size: None, flags: None }
    }
}

impl Id {
    /// The id on the wire.
    pub fn to_wire(self) -> (w: WireDagId)
        ensures
            w.0 == self.0,
    {
        WireDagId(self.0)
    }
}

impl WireDagId {
    pub fn to_api(self) -> (id: Id)
        ensures
            id.0 == self.0,
    {
        Id(self.0)
    }
}

impl Default for WireDagId {
    fn default() -> (w: WireDagId)
        ensures
            w.0 == 0,
    {
        WireDagId(0)
    }
}

/// Putting parents on the wire and taking them off again gives them back.
pub proof fn lemma_parents_roundtrip(p: Parents)
    ensures
        p.spec_to_wire().spec_to_api() == Some(p),
        p.spec_to_wire() != WireParents::Unknown,
{
}

/// Whatever came off the wire goes back on it as it was.
pub proof fn lemma_wire_parents_roundtrip(w: WireParents)
    requires
        w.spec_to_api().is_some(),
    ensures
        w.spec_to_api().unwrap().spec_to_wire() == w,
{
}

} // verus!
