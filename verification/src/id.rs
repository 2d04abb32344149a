//! Integer identifiers of vertexes, and the two groups they are drawn from.

use vstd::prelude::*;

verus! {

/// Number of ids in one group: the low 56 bits of an id index into its group.
pub const GROUP_SPAN: u64 = 0x0100_0000_0000_0000;

/// One of the two disjoint id ranges.
///
/// `Master` holds the ancestors of the master head and is permanent;
/// `NonMaster` holds everything else and can be wiped and reassigned.
#[derive(Clone, Copy, Debug, PartialEq, Eq, Structural, Hash)]
pub enum Group {
    Master,
    NonMaster,
}

/// A 64-bit vertex identifier: the top 8 bits name the group, the low 56
/// bits are the position inside that group.
#[derive(Clone, Copy, Debug, PartialEq, Eq, Structural, PartialOrd, Ord, Hash)]
pub struct Id(pub u64);

impl Group {
    /// The byte stored in the top 8 bits of every id of this group.
    pub open spec fn spec_tag(self) -> u8 {
        match self {
            Group::Master => 0u8,
            Group::NonMaster => 1u8,
        }
    }

    /// The smallest id of the group, as a number.
    pub open spec fn spec_min(self) -> int {
        self.spec_tag() as int * (GROUP_SPAN as int)
    }

    /// The largest id of the group, as a number.
    pub open spec fn spec_max(self) -> int {
        self.spec_min() + GROUP_SPAN as int - 1
    }

    /// Whether the number `id` lies in this group.
    pub open spec fn spec_contains(self, id: int) -> bool {
        self.spec_min() <= id <= self.spec_max()
    }

    #[verifier::when_used_as_spec(spec_tag)]
    pub fn tag(self) -> (t: u8)
        ensures
            t == self.spec_tag(),
    {
        match self {
            Group::Master => 0,
            Group::NonMaster => 1,
        }
    }

    /// The group with the given tag byte, if there is one.
    pub fn from_tag(tag: u8) -> (g: Option<Group>)
        ensures
            tag == 0 ==> g == Some(Group::Master),
            tag == 1 ==> g == Some(Group::NonMaster),
            tag >= 2 ==> g.is_none(),
    {
        if tag == 0 {
            Some(Group::Master)
        } else if tag == 1 {
            Some(Group::NonMaster)
        } else {
            None
        }
    }

    pub fn min_id(self) -> (id: Id)
        ensures
            id.0 == self.spec_min(),
            id.spec_group() == Some(self),
    {
        match self {
            Group::Master => Id(0),
            Group::NonMaster => Id(GROUP_SPAN),
        }
    }

    pub fn max_id(self) -> (id: Id)
        ensures
            id.0 == self.spec_max(),
            id.spec_group() == Some(self),
    {
        match self {
            Group::Master => Id(GROUP_SPAN - 1),
            Group::NonMaster => Id(GROUP_SPAN + (GROUP_SPAN - 1)),
        }
    }

    /// Whether `id` belongs to this group.
    pub fn contains(self, id: Id) -> (b: bool)
        ensures
            b == self.spec_contains(id.0 as int),
            b == (id.spec_group() == Some(self)),
    {
        match self {
            Group::Master => id.0 < GROUP_SPAN,
            Group::NonMaster => id.0 >= GROUP_SPAN && id.0 - GROUP_SPAN < GROUP_SPAN,
        }
    }
}

impl Id {
    /// The group that the id belongs to; `None` where the top byte names no group.
    pub open spec fn spec_group(self) -> Option<Group> {
        if self.0 < GROUP_SPAN {
            Some(Group::Master)
        } else if self.0 < 2 * GROUP_SPAN {
            Some(Group::NonMaster)
        } else {
            None
        }
    }

    /// An id is valid when its top byte names one of the two groups.
    pub open spec fn wf(self) -> bool {
        self.spec_group().is_some()
    }

    #[verifier::when_used_as_spec(spec_group)]
    pub fn group(self) -> (g: Option<Group>)
        ensures
            g == self.spec_group(),
    {
        if self.0 < GROUP_SPAN {
            Some(Group::Master)
        } else if self.0 - GROUP_SPAN < GROUP_SPAN {
            Some(Group::NonMaster)
        } else {
            None
        }
    }

    /// The id that follows this one, unless this is the largest 64-bit number.
    pub fn checked_next(self) -> (n: Option<Id>)
        ensures
            self.0 < u64::MAX ==> n == Some(Id((self.0 + 1) as u64)),
            self.0 == u64::MAX ==> n.is_none(),
    {
        if self.0 < u64::MAX {
            Some(Id(self.0 + 1))
        } else {
            None
        }
    }
}

/// Every id of the master group is smaller than every id of the other group.
pub proof fn lemma_groups_are_ordered(a: Id, b: Id)
    requires
        a.spec_group() == Some(Group::Master),
        b.spec_group() == Some(Group::NonMaster),
    ensures
        a.0 < b.0,
{
}

/// A valid id lies in exactly the group that `spec_group` names.
pub proof fn lemma_group_contains(id: Id, g: Group)
    ensures
        g.spec_contains(id.0 as int) <==> id.spec_group() == Some(g),
{
}

} // verus!
