//! The map between names and ids, held in memory.

use crate::id::Group;
use crate::id::Id;
use crate::lex::bytes_eq;
use crate::lex::bytes_le;
use crate::lex::has_prefix;
use crate::lex::key_le;
use crate::lex::lemma_key_le_antisymmetric;
use crate::lex::lemma_key_le_reflexive;
use crate::lex::lemma_key_le_total;
use crate::lex::lemma_key_le_transitive;
use crate::text::push_decimal;
use vstd::prelude::*;
use vstd::string::StringExecFns;

verus! {

/// Why an operation of the map failed.
#[derive(Clone, Copy, Debug, PartialEq, Eq, Structural)]
pub enum IdMapError {
    /// The map has no id for the name.
    VertexNotFound,
    /// The map has no name for the id.
    IdNotFound,
    /// The id has another name already, or the name has another id in
    /// the same group.
    Conflict,
    /// The id names no group, or the name would leave the master group.
    GroupViolation,
    /// A prefix holds a character that is no lowercase hexadecimal digit.
    InvalidHex,
    /// The version of the map cannot be counted any further.
    VersionExhausted,
}

/// The name of a vertex: bytes that mean nothing to this library, most
/// often the hash of a commit.
#[derive(Debug, PartialEq, Eq, PartialOrd, Ord, Hash)]
pub struct VertexName(pub Vec<u8>);

impl View for VertexName {
    type V = Seq<u8>;

    open spec fn view(&self) -> Seq<u8> {
        self.0@
    }
}

/// The character code of a hexadecimal digit: `0`-`9`, then `a`-`f`.
pub open spec fn hex_digit(d: int) -> u8 {
    if d < 10 {
        (48 + d) as u8
    } else {
        (87 + d) as u8
    }
}

/// The bytes `name` in hexadecimal digits, two for each byte.
pub open spec fn hex_of(name: Seq<u8>) -> Seq<u8>
    decreases name.len(),
{
    if name.len() == 0 {
        Seq::empty()
    } else {
        hex_of(name.drop_last()).push(hex_digit(name.last() as int / 16)).push(
            hex_digit(name.last() as int % 16),
        )
    }
}

/// Whether `c` is the character code of a lowercase hexadecimal digit.
pub open spec fn is_hex_digit(c: u8) -> bool {
    48 <= c <= 57 || 97 <= c <= 102
}

/// Whether `hex` is made of lowercase hexadecimal digits.
pub open spec fn is_hex(hex: Seq<u8>) -> bool {
    forall|i: int| 0 <= i < hex.len() ==> is_hex_digit(#[trigger] hex[i])
}

/// The value of a hexadecimal digit.
pub open spec fn hex_value(c: u8) -> int {
    if c <= 57 {
        c - 48
    } else {
        c - 87
    }
}

/// The bytes that the hexadecimal digits `hex` spell; a digit left over
/// at the end is the high half of a last byte.
pub open spec fn unhex(hex: Seq<u8>) -> Seq<u8> {
    Seq::new(
        ((hex.len() + 1) / 2) as nat,
        |i: int|
            if 2 * i + 1 < hex.len() {
                (hex_value(hex[2 * i]) * 16 + hex_value(hex[2 * i + 1])) as u8
            } else {
                (hex_value(hex[2 * i]) * 16) as u8
            },
    )
}

fn hex_digit_of(d: u8) -> (c: u8)
    requires
        d < 16,
    ensures
        c == hex_digit(d as int),
        is_hex_digit(c),
{
    if d < 10 {
        48 + d
    } else {
        87 + d
    }
}

impl VertexName {
    /// The name made of a copy of `bytes`.
    pub fn copy_from(bytes: &[u8]) -> (name: VertexName)
        ensures
            name@ == bytes@,
    {
        VertexName(vstd::slice::slice_to_vec(bytes))
    }

    /// A copy of the name.
    pub fn duplicate(&self) -> (name: VertexName)
        ensures
            name@ == self@,
    {
        VertexName(vstd::slice::slice_to_vec(self.0.as_slice()))
    }

    /// The name in hexadecimal digits.
    pub fn to_hex(&self) -> (hex: Vec<u8>)
        ensures
            hex@ == hex_of(self@),
    {
        let mut hex: Vec<u8> = Vec::new();
        let mut i: usize = 0;
        while i < self.0.len()
            invariant
                i <= self@.len(),
                hex@ == hex_of(self@.take(i as int)),
            decreases self@.len() - i,
        {
            let b = self.0[i];
            hex.push(hex_digit_of(b / 16));
            hex.push(hex_digit_of(b % 16));
            proof {
                assert(self@.take(i + 1).drop_last() =~= self@.take(i as int));
            }
            i = i + 1;
        }
        proof {
            assert(self@.take(i as int) =~= self@);
        }
        hex
    }

    /// The name that hexadecimal digits spell; `InvalidHex` exactly where
    /// one of the characters is no lowercase hexadecimal digit.
    pub fn from_hex(hex: &[u8]) -> (r: Result<VertexName, IdMapError>)
        ensures
            match r {
                Ok(name) => is_hex(hex@) && name@ == unhex(hex@),
                Err(e) => e == IdMapError::InvalidHex && !is_hex(hex@),
            },
    {
        let mut bytes: Vec<u8> = Vec::new();
        let mut i: usize = 0;
        while i < hex.len()
            invariant
                i <= hex@.len(),
                i % 2 == 0 || i == hex@.len(),
                is_hex(hex@.take(i as int)),
                bytes@ == unhex(hex@.take(i as int)),
            decreases hex@.len() - i,
        {
            let c = hex[i];
            if !((48 <= c && c <= 57) || (97 <= c && c <= 102)) {
                return Err(IdMapError::InvalidHex);
            }
            let high: u8 = if c <= 57 {
                c - 48
            } else {
                c - 87
            };
            if i + 1 < hex.len() {
                let d = hex[i + 1];
                if !((48 <= d && d <= 57) || (97 <= d && d <= 102)) {
                    return Err(IdMapError::InvalidHex);
                }
                let low: u8 = if d <= 57 {
                    d - 48
                } else {
                    d - 87
                };
                bytes.push(high * 16 + low);
                proof {
                    let next = hex@.take(i + 2);
                    assert(is_hex(next)) by {
                        assert forall|j: int| 0 <= j < next.len() implies is_hex_digit(
                            #[trigger] next[j],
                        ) by {
                            if j < i {
                                assert(next[j] == hex@.take(i as int)[j]);
                            }
                        }
                    }
                    assert(bytes@ =~= unhex(next));
                }
                i = i + 2;
            } else {
                bytes.push(high * 16);
                proof {
                    let next = hex@.take(i + 1);
                    assert(is_hex(next)) by {
                        assert forall|j: int| 0 <= j < next.len() implies is_hex_digit(
                            #[trigger] next[j],
                        ) by {
                            if j < i {
                                assert(next[j] == hex@.take(i as int)[j]);
                            }
                        }
                    }
                    assert(bytes@ =~= unhex(next));
                }
                i = i + 1;
            }
        }
        proof {
            assert(hex@.take(i as int) =~= hex@);
        }
        Ok(VertexName(bytes))
    }
}

/// The names among `names` whose hexadecimal form starts with `prefix`,
/// in the order of `names`.
pub open spec fn matching(names: Seq<Seq<u8>>, prefix: Seq<u8>) -> Seq<Seq<u8>>
    decreases names.len(),
{
    if names.len() == 0 {
        Seq::empty()
    } else if has_prefix(hex_of(names.last()), prefix) {
        matching(names.drop_last(), prefix).push(names.last())
    } else {
        matching(names.drop_last(), prefix)
    }
}

/// How many names a lookup by prefix hands out at most: `limit`.
pub open spec fn prefix_limit(limit: usize) -> nat {
    limit as nat
}

/// The first `n` of `names` at most.
pub open spec fn first_of(names: Seq<Seq<u8>>, n: nat) -> Seq<Seq<u8>> {
    if names.len() <= n {
        names
    } else {
        names.take(n as int)
    }
}

/// A list of names as mathematical values.
pub open spec fn names_view(names: Seq<VertexName>) -> Seq<Seq<u8>> {
    names.map_values(|n: VertexName| n@)
}

/// The two tables of the map, without the ids that are free next and
/// without a version.
///
/// The tables are independent: an id has one name at most and a name one
/// id at most, and `insert_vertex_id_name` overwrites both.
pub struct CoreMemIdMap {
    by_id: Vec<(Id, VertexName)>,
    by_name: Vec<(VertexName, Id)>,
    id2name: Ghost<Map<Id, Seq<u8>>>,
    name2id: Ghost<Map<Seq<u8>, Id>>,
}

impl CoreMemIdMap {
    /// The name of each id.
    pub closed spec fn id2name(&self) -> Map<Id, Seq<u8>> {
        self.id2name@
    }

    /// The id of each name.
    pub closed spec fn name2id(&self) -> Map<Seq<u8>, Id> {
        self.name2id@
    }

    /// The names that have an id, in their order.
    pub closed spec fn names(&self) -> Seq<Seq<u8>> {
        self.by_name@.map_values(|e: (VertexName, Id)| e.0@)
    }

    /// What every map satisfies: its tables hold what `id2name` and
    /// `name2id` say, the ids and the names in their order and each once.
    pub closed spec fn wf(&self) -> bool {
        &&& forall|i: int|
            0 <= i < self.by_id@.len() ==> self.id2name@.dom().contains(
                (#[trigger] self.by_id@[i]).0,
            ) && self.id2name@[self.by_id@[i].0] == self.by_id@[i].1@
        &&& forall|id: Id| #[trigger]
            self.id2name@.dom().contains(id) ==> exists|i: int|
                0 <= i < self.by_id@.len() && (#[trigger] self.by_id@[i]).0 == id
        &&& forall|i: int, j: int|
            0 <= i < j < self.by_id@.len() ==> (#[trigger] self.by_id@[i]).0.0 < (
            #[trigger] self.by_id@[j]).0.0
        &&& forall|i: int|
            0 <= i < self.by_name@.len() ==> self.name2id@.dom().contains(
                (#[trigger] self.by_name@[i]).0@,
            ) && self.name2id@[self.by_name@[i].0@] == self.by_name@[i].1
        &&& forall|n: Seq<u8>| #[trigger]
            self.name2id@.dom().contains(n) ==> exists|i: int|
                0 <= i < self.by_name@.len() && (#[trigger] self.by_name@[i]).0@ == n
        &&& forall|i: int, j: int|
            0 <= i < j < self.by_name@.len() ==> key_le(
                (#[trigger] self.by_name@[i]).0@,
                (#[trigger] self.by_name@[j]).0@,
            ) && self.by_name@[i].0@ != self.by_name@[j].0@
    }

    /// The names of `names` are those that have an id, each once and in
    /// their order.
    pub proof fn lemma_names(&self)
        requires
            self.wf(),
        ensures
            forall|i: int|
                0 <= i < self.names().len() ==> self.name2id().dom().contains(
                    #[trigger] self.names()[i],
                ),
            forall|n: Seq<u8>| #[trigger]
                self.name2id().dom().contains(n) ==> self.names().contains(n),
            forall|i: int, j: int|
                0 <= i < j < self.names().len() ==> key_le(
                    #[trigger] self.names()[i],
                    #[trigger] self.names()[j],
                ) && self.names()[i] != self.names()[j],
    {
        assert forall|n: Seq<u8>| #[trigger]
            self.name2id().dom().contains(n) implies self.names().contains(n) by {
            let i = choose|i: int| 0 <= i < self.by_name@.len()
                && (#[trigger] self.by_name@[i]).0@ == n;
            assert(self.names()[i] == n);
        }
    }

    /// A map without names and ids.
    pub fn new() -> (map: CoreMemIdMap)
        ensures
            map.wf(),
            map.id2name() == Map::<Id, Seq<u8>>::empty(),
            map.name2id() == Map::<Seq<u8>, Id>::empty(),
    {
        CoreMemIdMap {
            by_id: Vec::new(),
            by_name: Vec::new(),
            id2name: Ghost(Map::empty()),
            name2id: Ghost(Map::empty()),
        }
    }

    /// The first place in the table by id whose id does not come before `id`.
    fn place_of_id(&self, id: Id) -> (pos: usize)
        requires
            self.wf(),
        ensures
            pos <= self.by_id@.len(),
            forall|j: int| 0 <= j < pos ==> (#[trigger] self.by_id@[j]).0.0 < id.0,
            forall|j: int| pos <= j < self.by_id@.len() ==> (#[trigger] self.by_id@[j]).0.0 >= id.0,
            self.id2name().dom().contains(id) <==> (pos < self.by_id@.len()
                && self.by_id@[pos as int].0 == id),
    {
        let mut lo: usize = 0;
        let mut hi: usize = self.by_id.len();
        while lo < hi
            invariant
                self.wf(),
                lo <= hi <= self.by_id@.len(),
                forall|j: int| 0 <= j < lo ==> (#[trigger] self.by_id@[j]).0.0 < id.0,
                forall|j: int|
                    hi <= j < self.by_id@.len() ==> (#[trigger] self.by_id@[j]).0.0 >= id.0,
            decreases hi - lo,
        {
            let mid = lo + (hi - lo) / 2;
            if self.by_id[mid].0.0 < id.0 {
                proof {
                    assert forall|j: int| 0 <= j < mid + 1 implies (#[trigger] self.by_id@[j]).0.0
                        < id.0 by {
                        if j < mid {
                            assert(self.by_id@[j].0.0 < self.by_id@[mid as int].0.0);
                        }
                    }
                }
                lo = mid + 1;
            } else {
                proof {
                    assert forall|j: int| mid <= j < self.by_id@.len() implies (
                    #[trigger] self.by_id@[j]).0.0 >= id.0 by {
                        if j > mid {
                            assert(self.by_id@[mid as int].0.0 < self.by_id@[j].0.0);
                        }
                    }
                }
                hi = mid;
            }
        }
        proof {
            if self.id2name().dom().contains(id) {
                let k = choose|k: int| 0 <= k < self.by_id@.len()
                    && (#[trigger] self.by_id@[k]).0 == id;
                if k > lo {
                    assert(self.by_id@[lo as int].0.0 < self.by_id@[k].0.0);
                }
            }
        }
        lo
    }

    /// The place of `id` in the table by id.
    fn position_of_id(&self, id: Id) -> (r: Option<usize>)
        requires
            self.wf(),
        ensures
            match r {
                Some(i) => i < self.by_id@.len() && self.by_id@[i as int].0 == id
                    && self.id2name().dom().contains(id),
                None => !self.id2name().dom().contains(id),
            },
    {
        let pos = self.place_of_id(id);
        if pos < self.by_id.len() && self.by_id[pos].0.0 == id.0 {
            Some(pos)
        } else {
            None
        }
    }

    /// The first place in the table by name whose name does not come
    /// before `name`.
    fn position_of_name(&self, name: &[u8]) -> (i: usize)
        requires
            self.wf(),
        ensures
            i <= self.by_name@.len(),
            forall|j: int|
                0 <= j < i ==> key_le((#[trigger] self.by_name@[j]).0@, name@)
                    && self.by_name@[j].0@ != name@,
            forall|j: int|
                i <= j < self.by_name@.len() ==> key_le(name@, (#[trigger] self.by_name@[j]).0@),
            self.name2id().dom().contains(name@) <==> (i < self.by_name@.len()
                && self.by_name@[i as int].0@ == name@),
    {
        let mut lo: usize = 0;
        let mut hi: usize = self.by_name.len();
        while lo < hi
            invariant
                self.wf(),
                lo <= hi <= self.by_name@.len(),
                forall|j: int|
                    0 <= j < lo ==> key_le((#[trigger] self.by_name@[j]).0@, name@)
                        && self.by_name@[j].0@ != name@,
                forall|j: int|
                    hi <= j < self.by_name@.len() ==> key_le(
                        name@,
                        (#[trigger] self.by_name@[j]).0@,
                    ),
            decreases hi - lo,
        {
            let mid = lo + (hi - lo) / 2;
            let ghost here = self.by_name@[mid as int].0@;
            if bytes_le(name, self.by_name[mid].0.0.as_slice()) {
                proof {
                    assert forall|j: int| mid <= j < self.by_name@.len() implies key_le(
                        name@,
                        (#[trigger] self.by_name@[j]).0@,
                    ) by {
                        if j > mid {
                            lemma_key_le_transitive(name@, here, self.by_name@[j].0@);
                        }
                    }
                }
                hi = mid;
            } else {
                proof {
                    lemma_key_le_total(name@, here);
                    lemma_key_le_reflexive(name@);
                    assert forall|j: int| 0 <= j < mid + 1 implies key_le(
                        (#[trigger] self.by_name@[j]).0@,
                        name@,
                    ) && self.by_name@[j].0@ != name@ by {
                        if j < mid {
                            lemma_key_le_transitive(self.by_name@[j].0@, here, name@);
                        }
                    }
                }
                lo = mid + 1;
            }
        }
        let i = lo;
        proof {
            if self.name2id().dom().contains(name@) {
                let k = choose|k: int|
                    0 <= k < self.by_name@.len() && (#[trigger] self.by_name@[k]).0@ == name@;
                if k > i {
                    lemma_key_le_antisymmetric(self.by_name@[i as int].0@, self.by_name@[k].0@);
                }
            }
        }
        i
    }

    pub fn lookup_vertex_id(&self, name: &VertexName) -> (r: Option<Id>)
        requires
            self.wf(),
        ensures
            r == (if self.name2id().dom().contains(name@) {
                Some(self.name2id()[name@])
            } else {
                None
            }),
    {
        let i = self.position_of_name(name.0.as_slice());
        if i < self.by_name.len() && bytes_eq(self.by_name[i].0.0.as_slice(), name.0.as_slice()) {
            Some(self.by_name[i].1)
        } else {
            None
        }
    }

    pub fn lookup_vertex_name(&self, id: Id) -> (r: Option<VertexName>)
        requires
            self.wf(),
        ensures
            match r {
                Some(name) => self.id2name().dom().contains(id) && name@ == self.id2name()[id],
                None => !self.id2name().dom().contains(id),
            },
    {
        match self.position_of_id(id) {
            Some(i) => Some(self.by_id[i].1.duplicate()),
            None => None,
        }
    }

    /// The names whose hexadecimal form starts with `hex_prefix`, in
    /// their order; no more of them than `limit`.
    pub fn lookup_vertexes_by_hex_prefix(&self, hex_prefix: &[u8], limit: usize) -> (r: Result<
        Vec<VertexName>,
        IdMapError,
    >)
        requires
            self.wf(),
        ensures
            match r {
                Ok(found) => is_hex(hex_prefix@) && names_view(found@) == first_of(
                    matching(self.names(), hex_prefix@),
                    prefix_limit(limit),
                ),
                Err(e) => e == IdMapError::InvalidHex && !is_hex(hex_prefix@),
            },
    {
        match VertexName::from_hex(hex_prefix) {
            Ok(_) => {},
            Err(e) => { return Err(e); },
        }
        let mut found: Vec<VertexName> = Vec::new();
        let ghost names = self.names();
        let mut i: usize = 0;
        proof {
            assert(names_view(found@) =~= Seq::<Seq<u8>>::empty());
            assert(names.take(0) =~= Seq::<Seq<u8>>::empty());
        }
        if limit == 0 {
            proof {
                assert(matching(names, hex_prefix@).take(0) =~= Seq::<Seq<u8>>::empty());
            }
            return Ok(found);
        }
        loop
            invariant_except_break
                self.wf(),
                i <= self.by_name@.len(),
                names == self.names(),
                names_view(found@) == matching(names.take(i as int), hex_prefix@),
                found@.len() < prefix_limit(limit),
            ensures
                names_view(found@) == first_of(matching(names, hex_prefix@), prefix_limit(limit)),
            decreases self.by_name@.len() - i,
        {
            if i >= self.by_name.len() {
                proof {
                    assert(names.take(i as int) =~= names);
                    assert(names_view(found@).len() == found@.len());
                }
                break ;
            }
            let hex = self.by_name[i].0.to_hex();
            proof {
                assert(names.take(i + 1).drop_last() =~= names.take(i as int));
                assert(names.take(i + 1).last() == self.by_name@[i as int].0@);
            }
            if starts_with(hex.as_slice(), hex_prefix) {
                let ghost before = found@;
                found.push(self.by_name[i].0.duplicate());
                proof {
                    assert(names_view(found@) =~= names_view(before).push(
                        self.by_name@[i as int].0@,
                    ));
                }
                if found.len() >= limit {
                    proof {
                        lemma_matching_prefix(names, (i + 1) as int, hex_prefix@);
                        assert(names_view(found@).len() == found@.len());
                    }
                    break ;
                }
            }
            i = i + 1;
        }
        Ok(found)
    }

    pub fn has_vertex_name(&self, name: &VertexName) -> (b: bool)
        requires
            self.wf(),
        ensures
            b == self.name2id().dom().contains(name@),
    {
        self.lookup_vertex_id(name).is_some()
    }

    pub fn has_vertex_id(&self, id: Id) -> (b: bool)
        requires
            self.wf(),
        ensures
            b == self.id2name().dom().contains(id),
    {
        self.position_of_id(id).is_some()
    }

    /// Gives `id` the name `vertex_name` and `vertex_name` the id `id`,
    /// whatever the two tables held for them.
    pub fn insert_vertex_id_name(&mut self, id: Id, vertex_name: VertexName)
        requires
            old(self).wf(),
        ensures
            final(self).wf(),
            final(self).id2name() == old(self).id2name().insert(id, vertex_name@),
            final(self).name2id() == old(self).name2id().insert(vertex_name@, id),
    {
        let copy = vertex_name.duplicate();
        let at = self.position_of_name(vertex_name.0.as_slice());
        let id_at = self.place_of_id(id);
        let ghost old_names = self.by_name@;
        let ghost old_ids = self.by_id@;
        let ghost name = vertex_name@;
        let same_name = at < self.by_name.len() && bytes_eq(
            self.by_name[at].0.0.as_slice(),
            vertex_name.0.as_slice(),
        );
        if same_name {
            self.by_name.set(at, (copy, id));
        } else {
            self.by_name.insert(at, (copy, id));
        }
        let same_id = id_at < self.by_id.len() && self.by_id[id_at].0.0 == id.0;
        if same_id {
            self.by_id.set(id_at, (id, vertex_name));
        } else {
            self.by_id.insert(id_at, (id, vertex_name));
        }
        proof {
            let ghost new_id2name = self.id2name@.insert(id, name);
            let ghost new_name2id = self.name2id@.insert(name, id);
            self.id2name = Ghost(new_id2name);
            self.name2id = Ghost(new_name2id);
        }
        proof {
            let ids = self.by_id@;
            let names = self.by_name@;
            assert(ids[id_at as int].0 == id);
            assert(names[at as int].0@ == name);
            // Where a row of before has gone to.
            assert forall|i: int| 0 <= i < ids.len() && i != id_at implies (#[trigger] ids[i])
                == old_ids[if same_id || i < id_at {
                i
            } else {
                i - 1
            }] by {}
            assert forall|i: int| 0 <= i < names.len() && i != at implies (#[trigger] names[i])
                == old_names[if same_name || i < at {
                i
            } else {
                i - 1
            }] by {}
            assert forall|i: int, j: int| 0 <= i < j < ids.len() implies (#[trigger] ids[i]).0.0 < (
            #[trigger] ids[j]).0.0 by {
                let oi = if same_id || i < id_at {
                    i
                } else {
                    i - 1
                };
                let oj = if same_id || j < id_at {
                    j
                } else {
                    j - 1
                };
                if i != id_at && j != id_at {
                    assert(ids[i] == old_ids[oi] && ids[j] == old_ids[oj]);
                    assert(old_ids[oi].0.0 < old_ids[oj].0.0);
                } else if i == id_at {
                    assert(ids[j] == old_ids[oj]);
                    if oj > id_at {
                        assert(old_ids[id_at as int].0.0 < old_ids[oj].0.0);
                    }
                } else {
                    assert(ids[i] == old_ids[oi]);
                }
            }
            assert forall|i: int, j: int| 0 <= i < j < names.len() implies key_le(
                (#[trigger] names[i]).0@,
                (#[trigger] names[j]).0@,
            ) && names[i].0@ != names[j].0@ by {
                let oi = if same_name || i < at {
                    i
                } else {
                    i - 1
                };
                let oj = if same_name || j < at {
                    j
                } else {
                    j - 1
                };
                if i != at && j != at {
                    assert(names[i] == old_names[oi] && names[j] == old_names[oj]);
                    assert(key_le(old_names[oi].0@, old_names[oj].0@));
                } else if i == at {
                    assert(names[j] == old_names[oj]);
                    if oj > at {
                        assert(key_le(old_names[at as int].0@, old_names[oj].0@));
                        lemma_key_le_transitive(name, old_names[at as int].0@, old_names[oj].0@);
                        if names[j].0@ == name {
                            lemma_key_le_antisymmetric(old_names[at as int].0@, old_names[oj].0@);
                        }
                    }
                } else {
                    assert(names[i] == old_names[oi]);
                }
            }
            assert forall|i: int| 0 <= i < ids.len() implies self.id2name@.dom().contains(
                (#[trigger] ids[i]).0,
            ) && self.id2name@[ids[i].0] == ids[i].1@ by {
                if i != id_at {
                    let oi = if same_id || i < id_at {
                        i
                    } else {
                        i - 1
                    };
                    assert(ids[i] == old_ids[oi]);
                    if same_id {
                        assert(old_ids[oi].0.0 != old_ids[id_at as int].0.0) by {
                            if oi < id_at {
                                assert(old_ids[oi].0.0 < old_ids[id_at as int].0.0);
                            } else {
                                assert(old_ids[id_at as int].0.0 < old_ids[oi].0.0);
                            }
                        }
                    }
                }
            }
            assert forall|k: Id| #[trigger] self.id2name@.dom().contains(k) implies exists|i: int|
                0 <= i < ids.len() && (#[trigger] ids[i]).0 == k by {
                if k == id {
                    assert(ids[id_at as int].0 == k);
                } else {
                    let w = choose|w: int| 0 <= w < old_ids.len() && (#[trigger] old_ids[w]).0 == k;
                    let nw = if same_id || w < id_at {
                        w
                    } else {
                        w + 1
                    };
                    assert(ids[nw] == old_ids[w]);
                    assert(ids[nw].0 == k);
                }
            }
            assert forall|i: int| 0 <= i < names.len() implies self.name2id@.dom().contains(
                (#[trigger] names[i]).0@,
            ) && self.name2id@[names[i].0@] == names[i].1 by {
                if i != at {
                    let oi = if same_name || i < at {
                        i
                    } else {
                        i - 1
                    };
                    assert(names[i] == old_names[oi]);
                    if same_name {
                        assert(old_names[oi].0@ != old_names[at as int].0@) by {
                            if oi < at {
                                assert(key_le(old_names[oi].0@, old_names[at as int].0@));
                            } else {
                                assert(key_le(old_names[at as int].0@, old_names[oi].0@));
                            }
                        }
                    }
                }
            }
            assert forall|n: Seq<u8>| #[trigger]
                self.name2id@.dom().contains(n) implies exists|i: int|
                0 <= i < names.len() && (#[trigger] names[i]).0@ == n by {
                if n == name {
                    assert(names[at as int].0@ == n);
                } else {
                    let w = choose|w: int|
                        0 <= w < old_names.len() && (#[trigger] old_names[w]).0@ == n;
                    let nw = if same_name || w < at {
                        w
                    } else {
                        w + 1
                    };
                    assert(names[nw] == old_names[w]);
                    assert(names[nw].0@ == n);
                }
            }
        }
    }

    /// A copy of the map.
    pub fn duplicate(&self) -> (copy: CoreMemIdMap)
        requires
            self.wf(),
        ensures
            copy.wf(),
            copy.id2name() == self.id2name(),
            copy.name2id() == self.name2id(),
            copy.names() == self.names(),
    {
        let mut by_id: Vec<(Id, VertexName)> = Vec::new();
        let mut i: usize = 0;
        while i < self.by_id.len()
            invariant
                i <= self.by_id@.len(),
                by_id@.len() == i,
                forall|j: int|
                    0 <= j < i ==> (#[trigger] by_id@[j]).0 == self.by_id@[j].0 && by_id@[j].1@
                        == self.by_id@[j].1@,
            decreases self.by_id@.len() - i,
        {
            by_id.push((self.by_id[i].0, self.by_id[i].1.duplicate()));
            i = i + 1;
        }
        let mut by_name: Vec<(VertexName, Id)> = Vec::new();
        let mut i: usize = 0;
        while i < self.by_name.len()
            invariant
                i <= self.by_name@.len(),
                by_name@.len() == i,
                forall|j: int|
                    0 <= j < i ==> (#[trigger] by_name@[j]).0@ == self.by_name@[j].0@
                        && by_name@[j].1 == self.by_name@[j].1,
            decreases self.by_name@.len() - i,
        {
            by_name.push((self.by_name[i].0.duplicate(), self.by_name[i].1));
            i = i + 1;
        }
        let copy = CoreMemIdMap {
            by_id,
            by_name,
            id2name: Ghost(self.id2name@),
            name2id: Ghost(self.name2id@),
        };
        proof {
            assert forall|id: Id| #[trigger] copy.id2name@.dom().contains(id) implies exists|i: int|
                0 <= i < copy.by_id@.len() && (#[trigger] copy.by_id@[i]).0 == id by {
                let w = choose|w: int|
                    0 <= w < self.by_id@.len() && (#[trigger] self.by_id@[w]).0 == id;
                assert(copy.by_id@[w].0 == id);
            }
            assert forall|n: Seq<u8>| #[trigger]
                copy.name2id@.dom().contains(n) implies exists|i: int|
                0 <= i < copy.by_name@.len() && (#[trigger] copy.by_name@[i]).0@ == n by {
                let w = choose|w: int|
                    0 <= w < self.by_name@.len() && (#[trigger] self.by_name@[w]).0@ == n;
                assert(copy.by_name@[w].0@ == n);
            }
            assert forall|i: int, j: int| 0 <= i < j < copy.by_id@.len() implies (
            #[trigger] copy.by_id@[i]).0.0 < (#[trigger] copy.by_id@[j]).0.0 by {
                assert(self.by_id@[i].0.0 < self.by_id@[j].0.0);
            }
            assert forall|i: int, j: int| 0 <= i < j < copy.by_name@.len() implies key_le(
                (#[trigger] copy.by_name@[i]).0@,
                (#[trigger] copy.by_name@[j]).0@,
            ) && copy.by_name@[i].0@ != copy.by_name@[j].0@ by {
                assert(key_le(self.by_name@[i].0@, self.by_name@[j].0@));
            }
            assert(copy.names() =~= self.names());
        }
        copy
    }

    /// The rows of the table by id whose id is not of `group`.
    #[verifier::rlimit(40)]
    fn kept_by_id(&self, group: Group) -> (by_id: Vec<(Id, VertexName)>)
        requires
            forall|k: int, l: int|
                0 <= k < l < self.by_id@.len() ==> (#[trigger] self.by_id@[k]).0.0 < (
                #[trigger] self.by_id@[l]).0.0,
        ensures
            forall|j: int|
                0 <= j < by_id@.len() ==> (#[trigger] by_id@[j]).0.spec_group() != Some(group)
                    && exists|k: int|
                    0 <= k < self.by_id@.len() && (#[trigger] self.by_id@[k]).0 == by_id@[j].0
                        && self.by_id@[k].1@ == by_id@[j].1@,
            forall|k: int|
                0 <= k < self.by_id@.len() && (#[trigger] self.by_id@[k]).0.spec_group() != Some(
                    group,
                ) ==> exists|j: int|
                    0 <= j < by_id@.len() && (#[trigger] by_id@[j]).0 == self.by_id@[k].0,
            forall|j: int, l: int|
                0 <= j < l < by_id@.len()
                    ==> (#[trigger] by_id@[j]).0.0 < (#[trigger] by_id@[l]).0.0,
    {
        let mut by_id: Vec<(Id, VertexName)> = Vec::new();
        let ghost mut origin: Seq<int> = Seq::empty();
        let mut i: usize = 0;
        while i < self.by_id.len()
            invariant
                i <= self.by_id@.len(),
                origin.len() == by_id@.len(),
                forall|k: int, l: int|
                    0 <= k < l < self.by_id@.len() ==> (#[trigger] self.by_id@[k]).0.0 < (
                    #[trigger] self.by_id@[l]).0.0,
                forall|j: int|
                    0 <= j < by_id@.len() ==> 0 <= (#[trigger] origin[j]) < i && by_id@[j].0
                        == self.by_id@[origin[j]].0 && by_id@[j].1@ == self.by_id@[origin[j]].1@
                        && by_id@[j].0.spec_group() != Some(group),
                forall|j: int, l: int|
                    0 <= j < l < by_id@.len() ==> (#[trigger] origin[j]) < (#[trigger] origin[l]),
                forall|k: int|
                    0 <= k < i && (#[trigger] self.by_id@[k]).0.spec_group() != Some(group)
                        ==> exists|j: int| 0 <= j < by_id@.len() && (#[trigger] origin[j]) == k,
            decreases self.by_id@.len() - i,
        {
            if !group.contains(self.by_id[i].0) {
                let ghost before = origin;
                let ghost rows = by_id@;
                by_id.push((self.by_id[i].0, self.by_id[i].1.duplicate()));
                proof {
                    origin = origin.push(i as int);
                    assert forall|j: int| 0 <= j < by_id@.len() implies 0 <= (
                    #[trigger] origin[j]) < i + 1 && by_id@[j].0 == self.by_id@[origin[j]].0
                        && by_id@[j].1@ == self.by_id@[origin[j]].1@ && by_id@[j].0.spec_group()
                        != Some(group) by {
                        if j < rows.len() {
                            assert(by_id@[j] == rows[j]);
                            assert(origin[j] == before[j]);
                        }
                    }
                    assert forall|j: int, l: int| 0 <= j < l < by_id@.len() implies (
                    #[trigger] origin[j]) < (#[trigger] origin[l]) by {
                        assert(origin[j] == before[j]);
                        if l < rows.len() {
                            assert(origin[l] == before[l]);
                        }
                    }
                    assert forall|k: int|
                        0 <= k < i + 1 && (#[trigger] self.by_id@[k]).0.spec_group() != Some(
                            group,
                        ) implies exists|j: int|
                        0 <= j < by_id@.len() && (#[trigger] origin[j]) == k by {
                        if k < i {
                            let j = choose|j: int|
                                0 <= j < before.len() && (#[trigger] before[j]) == k;
                            assert(origin[j] == k);
                        } else {
                            assert(origin[before.len() as int] == k);
                        }
                    }
                }
            }
            i = i + 1;
        }
        proof {
            assert forall|j: int| 0 <= j < by_id@.len() implies (
            #[trigger] by_id@[j]).0.spec_group() != Some(group) && exists|k: int|
                0 <= k < self.by_id@.len() && (#[trigger] self.by_id@[k]).0 == by_id@[j].0
                    && self.by_id@[k].1@ == by_id@[j].1@ by {
                let k = origin[j];
                assert(self.by_id@[k].0 == by_id@[j].0);
            }
            assert forall|k: int|
                0 <= k < self.by_id@.len() && (#[trigger] self.by_id@[k]).0.spec_group() != Some(
                    group,
                ) implies exists|j: int|
                0 <= j < by_id@.len() && (#[trigger] by_id@[j]).0 == self.by_id@[k].0 by {
                let j = choose|j: int| 0 <= j < by_id@.len() && (#[trigger] origin[j]) == k;
                assert(by_id@[j].0 == self.by_id@[k].0);
            }
            assert forall|j: int, l: int| 0 <= j < l < by_id@.len() implies (
            #[trigger] by_id@[j]).0.0 < (#[trigger] by_id@[l]).0.0 by {
                assert(origin[j] < origin[l]);
                assert(self.by_id@[origin[j]].0.0 < self.by_id@[origin[l]].0.0);
            }
        }
        by_id
    }

    /// The rows of the table by name whose id is not of `group`.
    #[verifier::rlimit(40)]
    fn kept_by_name(&self, group: Group) -> (by_name: Vec<(VertexName, Id)>)
        requires
            forall|k: int, l: int|
                0 <= k < l < self.by_name@.len() ==> key_le(
                    (#[trigger] self.by_name@[k]).0@,
                    (#[trigger] self.by_name@[l]).0@,
                ) && self.by_name@[k].0@ != self.by_name@[l].0@,
        ensures
            forall|j: int|
                0 <= j < by_name@.len() ==> (#[trigger] by_name@[j]).1.spec_group() != Some(group)
                    && exists|k: int|
                    0 <= k < self.by_name@.len() && (#[trigger] self.by_name@[k]).0@
                        == by_name@[j].0@ && self.by_name@[k].1 == by_name@[j].1,
            forall|k: int|
                0 <= k < self.by_name@.len() && (#[trigger] self.by_name@[k]).1.spec_group()
                    != Some(group) ==> exists|j: int|
                    0 <= j < by_name@.len() && (#[trigger] by_name@[j]).0@ == self.by_name@[k].0@,
            forall|j: int, l: int|
                0 <= j < l < by_name@.len() ==> key_le(
                    (#[trigger] by_name@[j]).0@,
                    (#[trigger] by_name@[l]).0@,
                ) && by_name@[j].0@ != by_name@[l].0@,
    {
        let mut by_name: Vec<(VertexName, Id)> = Vec::new();
        let ghost mut origin: Seq<int> = Seq::empty();
        let mut i: usize = 0;
        while i < self.by_name.len()
            invariant
                i <= self.by_name@.len(),
                origin.len() == by_name@.len(),
                forall|j: int|
                    0 <= j < by_name@.len() ==> 0 <= (#[trigger] origin[j]) < i && by_name@[j].0@
                        == self.by_name@[origin[j]].0@ && by_name@[j].1
                        == self.by_name@[origin[j]].1 && by_name@[j].1.spec_group() != Some(group),
                forall|j: int, l: int|
                    0 <= j < l < by_name@.len() ==> (#[trigger] origin[j]) < (#[trigger] origin[l]),
                forall|k: int|
                    0 <= k < i && (#[trigger] self.by_name@[k]).1.spec_group() != Some(group)
                        ==> exists|j: int| 0 <= j < by_name@.len() && (#[trigger] origin[j]) == k,
            decreases self.by_name@.len() - i,
        {
            if !group.contains(self.by_name[i].1) {
                let ghost before = origin;
                let ghost rows = by_name@;
                by_name.push((self.by_name[i].0.duplicate(), self.by_name[i].1));
                proof {
                    origin = origin.push(i as int);
                    assert forall|j: int| 0 <= j < by_name@.len() implies 0 <= (
                    #[trigger] origin[j]) < i + 1 && by_name@[j].0@ == self.by_name@[origin[j]].0@
                        && by_name@[j].1 == self.by_name@[origin[j]].1
                        && by_name@[j].1.spec_group() != Some(group) by {
                        if j < rows.len() {
                            assert(by_name@[j] == rows[j]);
                            assert(origin[j] == before[j]);
                        }
                    }
                    assert forall|j: int, l: int| 0 <= j < l < by_name@.len() implies (
                    #[trigger] origin[j]) < (#[trigger] origin[l]) by {
                        assert(origin[j] == before[j]);
                        if l < rows.len() {
                            assert(origin[l] == before[l]);
                        }
                    }
                    assert forall|k: int|
                        0 <= k < i + 1 && (#[trigger] self.by_name@[k]).1.spec_group() != Some(
                            group,
                        ) implies exists|j: int|
                        0 <= j < by_name@.len() && (#[trigger] origin[j]) == k by {
                        if k < i {
                            let j = choose|j: int|
                                0 <= j < before.len() && (#[trigger] before[j]) == k;
                            assert(origin[j] == k);
                        } else {
                            assert(origin[before.len() as int] == k);
                        }
                    }
                }
            }
            i = i + 1;
        }
        proof {
            assert forall|j: int| 0 <= j < by_name@.len() implies (
            #[trigger] by_name@[j]).1.spec_group() != Some(group) && exists|k: int|
                0 <= k < self.by_name@.len() && (#[trigger] self.by_name@[k]).0@ == by_name@[j].0@
                    && self.by_name@[k].1 == by_name@[j].1 by {
                let k = origin[j];
                assert(self.by_name@[k].0@ == by_name@[j].0@);
            }
            assert forall|k: int|
                0 <= k < self.by_name@.len() && (#[trigger] self.by_name@[k]).1.spec_group()
                    != Some(group) implies exists|j: int|
                0 <= j < by_name@.len() && (#[trigger] by_name@[j]).0@ == self.by_name@[k].0@ by {
                let j = choose|j: int| 0 <= j < by_name@.len() && (#[trigger] origin[j]) == k;
                assert(by_name@[j].0@ == self.by_name@[k].0@);
            }
            assert forall|j: int, l: int| 0 <= j < l < by_name@.len() implies key_le(
                (#[trigger] by_name@[j]).0@,
                (#[trigger] by_name@[l]).0@,
            ) && by_name@[j].0@ != by_name@[l].0@ by {
                assert(origin[j] < origin[l]);
                assert(key_le(self.by_name@[origin[j]].0@, self.by_name@[origin[l]].0@));
            }
        }
        by_name
    }

    /// The map without the ids of `group`, and without the names that
    /// have such an id.
    #[verifier::rlimit(50)]
    pub fn without_group(&self, group: Group) -> (rest: CoreMemIdMap)
        requires
            self.wf(),
        ensures
            rest.wf(),
            rest.id2name() == self.id2name().remove_keys(
                Set::new(|id: Id| id.spec_group() == Some(group)),
            ),
            rest.name2id() == self.name2id().remove_keys(
                Set::new(
                    |n: Seq<u8>|
                        self.name2id().dom().contains(n) && self.name2id()[n].spec_group() == Some(
                            group,
                        ),
                ),
            ),
    {
        let ghost gone_ids = Set::new(|id: Id| id.spec_group() == Some(group));
        let ghost gone_names = Set::new(
            |n: Seq<u8>|
                self.name2id().dom().contains(n) && self.name2id()[n].spec_group() == Some(group),
        );
        proof {
            assert forall|k: int, l: int| 0 <= k < l < self.by_id@.len() implies (
            #[trigger] self.by_id@[k]).0.0 < (#[trigger] self.by_id@[l]).0.0 by {}
            assert forall|k: int, l: int| 0 <= k < l < self.by_name@.len() implies key_le(
                (#[trigger] self.by_name@[k]).0@,
                (#[trigger] self.by_name@[l]).0@,
            ) && self.by_name@[k].0@ != self.by_name@[l].0@ by {}
        }
        let by_id = self.kept_by_id(group);
        let by_name = self.kept_by_name(group);
        let ghost ids = by_id@;
        let ghost names = by_name@;
        let ghost new_id2name = self.id2name@.remove_keys(gone_ids);
        let ghost new_name2id = self.name2id@.remove_keys(gone_names);
        proof {
            assert forall|j: int| 0 <= j < ids.len() implies new_id2name.dom().contains(
                (#[trigger] ids[j]).0,
            ) && new_id2name[ids[j].0] == ids[j].1@ by {
                let k = choose|k: int|
                    0 <= k < self.by_id@.len() && (#[trigger] self.by_id@[k]).0 == ids[j].0
                        && self.by_id@[k].1@ == ids[j].1@;
                assert(self.id2name@.dom().contains(self.by_id@[k].0));
                assert(!gone_ids.contains(ids[j].0));
            }
            assert forall|id: Id| #[trigger] new_id2name.dom().contains(id) implies exists|j: int|
                0 <= j < ids.len() && (#[trigger] ids[j]).0 == id by {
                assert(self.id2name@.dom().contains(id));
                assert(!gone_ids.contains(id));
                let k = choose|k: int|
                    0 <= k < self.by_id@.len() && (#[trigger] self.by_id@[k]).0 == id;
                assert(self.by_id@[k].0.spec_group() != Some(group));
                let j = choose|j: int|
                    0 <= j < ids.len() && (#[trigger] ids[j]).0 == self.by_id@[k].0;
                assert(ids[j].0 == id);
            }
            assert forall|j: int| 0 <= j < names.len() implies new_name2id.dom().contains(
                (#[trigger] names[j]).0@,
            ) && new_name2id[names[j].0@] == names[j].1 by {
                let k = choose|k: int|
                    0 <= k < self.by_name@.len() && (#[trigger] self.by_name@[k]).0@
                        == names[j].0@ && self.by_name@[k].1 == names[j].1;
                assert(self.name2id@.dom().contains(self.by_name@[k].0@));
                assert(self.name2id@[names[j].0@] == names[j].1);
                assert(!gone_names.contains(names[j].0@));
            }
            assert forall|n: Seq<u8>| #[trigger] new_name2id.dom().contains(n) implies exists|
                j: int,
            | 0 <= j < names.len() && (#[trigger] names[j]).0@ == n by {
                assert(self.name2id@.dom().contains(n));
                assert(!gone_names.contains(n));
                let k = choose|k: int|
                    0 <= k < self.by_name@.len() && (#[trigger] self.by_name@[k]).0@ == n;
                assert(self.name2id@[n] == self.by_name@[k].1);
                assert(self.by_name@[k].1.spec_group() != Some(group));
                let j = choose|j: int|
                    0 <= j < names.len() && (#[trigger] names[j]).0@ == self.by_name@[k].0@;
                assert(names[j].0@ == n);
            }
        }
        let rest = CoreMemIdMap {
            by_id,
            by_name,
            id2name: Ghost(new_id2name),
            name2id: Ghost(new_name2id),
        };
        proof {
            assert(rest.by_id@ == ids);
            assert(rest.by_name@ == names);
            assert(rest.id2name@ == new_id2name);
            assert(rest.name2id@ == new_name2id);
            assert forall|i: int, j: int| 0 <= i < j < rest.by_id@.len() implies (
            #[trigger] rest.by_id@[i]).0.0 < (#[trigger] rest.by_id@[j]).0.0 by {
                assert(ids[i].0.0 < ids[j].0.0);
            }
            assert forall|i: int, j: int| 0 <= i < j < rest.by_name@.len() implies key_le(
                (#[trigger] rest.by_name@[i]).0@,
                (#[trigger] rest.by_name@[j]).0@,
            ) && rest.by_name@[i].0@ != rest.by_name@[j].0@ by {
                assert(key_le(names[i].0@, names[j].0@));
            }
            assert forall|id: Id| #[trigger] rest.id2name@.dom().contains(id) implies exists|i: int|
                0 <= i < rest.by_id@.len() && (#[trigger] rest.by_id@[i]).0 == id by {
                let j = choose|j: int| 0 <= j < ids.len() && (#[trigger] ids[j]).0 == id;
                assert(rest.by_id@[j].0 == id);
            }
            assert forall|n: Seq<u8>| #[trigger]
                rest.name2id@.dom().contains(n) implies exists|i: int|
                0 <= i < rest.by_name@.len() && (#[trigger] rest.by_name@[i]).0@ == n by {
                let j = choose|j: int| 0 <= j < names.len() && (#[trigger] names[j]).0@ == n;
                assert(rest.by_name@[j].0@ == n);
            }
        }
        rest
    }
}

/// Whether `bytes` starts with `prefix`.
pub fn starts_with(bytes: &[u8], prefix: &[u8]) -> (b: bool)
    ensures
        b == has_prefix(bytes@, prefix@),
{
    if prefix.len() > bytes.len() {
        return false;
    }
    let mut i: usize = 0;
    while i < prefix.len()
        invariant
            i <= prefix@.len(),
            prefix@.len() <= bytes@.len(),
            forall|j: int| 0 <= j < i ==> bytes@[j] == prefix@[j],
        decreases prefix@.len() - i,
    {
        if bytes[i] != prefix[i] {
            proof {
                assert(bytes@.take(prefix@.len() as int)[i as int] != prefix@[i as int]);
            }
            return false;
        }
        i = i + 1;
    }
    proof {
        assert(bytes@.take(prefix@.len() as int) =~= prefix@);
    }
    true
}

/// The names that match among the first `n` names start the names that
/// match among all of them.
pub proof fn lemma_matching_prefix(names: Seq<Seq<u8>>, n: int, prefix: Seq<u8>)
    requires
        0 <= n <= names.len(),
    ensures
        matching(names.take(n), prefix).len() <= matching(names, prefix).len(),
        matching(names, prefix).take(matching(names.take(n), prefix).len() as int) == matching(
            names.take(n),
            prefix,
        ),
    decreases names.len(),
{
    if n == names.len() {
        assert(names.take(n) =~= names);
        assert(matching(names, prefix).take(matching(names, prefix).len() as int) =~= matching(
            names,
            prefix,
        ));
    } else {
        lemma_matching_prefix(names.drop_last(), n, prefix);
        assert(names.drop_last().take(n) =~= names.take(n));
        let part = matching(names.take(n), prefix);
        let most = matching(names.drop_last(), prefix);
        assert(matching(names, prefix).take(part.len() as int) =~= most.take(part.len() as int));
    }
}

/// The version of a map: a token that moves on with every change, so
/// that what was derived from the map can be told to be stale.
///
/// Versions of one epoch are ordered by their generation. A new epoch
/// starts where the map loses entries; versions of different epochs are
/// never ahead of one another.
#[derive(Clone, Copy, Debug, PartialEq, Eq, Structural)]
pub struct VerLink {
    pub epoch: u64,
    pub generation: u64,
}

impl VerLink {
    /// Whether what was derived at `self` is still good at `other`:
    /// the map has only grown in between.
    pub open spec fn spec_le(self, other: VerLink) -> bool {
        self.epoch == other.epoch && self.generation <= other.generation
    }

    /// Whether `other` was reached from `self` by changes to the map.
    pub open spec fn older_than(self, other: VerLink) -> bool {
        self.epoch < other.epoch || (self.epoch == other.epoch && self.generation
            < other.generation)
    }

    pub fn new() -> (v: VerLink)
        ensures
            v == (VerLink { epoch: 0, generation: 0 }),
    {
        VerLink { epoch: 0, generation: 0 }
    }

    #[verifier::when_used_as_spec(spec_le)]
    pub fn le(self, other: VerLink) -> (b: bool)
        ensures
            b == self.spec_le(other),
    {
        self.epoch == other.epoch && self.generation <= other.generation
    }

    /// The version after one more entry; `None` where the generations
    /// are used up.
    pub fn bumped(self) -> (r: Option<VerLink>)
        ensures
            r == (if self.generation < u64::MAX {
                Some(VerLink { epoch: self.epoch, generation: (self.generation + 1) as u64 })
            } else {
                None
            }),
    {
        if self.generation < u64::MAX {
            Some(VerLink { epoch: self.epoch, generation: self.generation + 1 })
        } else {
            None
        }
    }

    /// The first version of the next epoch; `None` where the epochs are
    /// used up.
    pub fn next_epoch(self) -> (r: Option<VerLink>)
        ensures
            r == (if self.epoch < u64::MAX {
                Some(VerLink { epoch: (self.epoch + 1) as u64, generation: 0 })
            } else {
                None
            }),
    {
        if self.epoch < u64::MAX {
            Some(VerLink { epoch: self.epoch + 1, generation: 0 })
        } else {
            None
        }
    }
}

/// The map between names and ids, with the ids that are free next and
/// a version.
pub struct MemIdMap {
    core: CoreMemIdMap,
    cached_next_free_ids: (u64, u64),
    map_id: String,
    map_version: VerLink,
}

/// Whether the two tables agree: the id of a name has that name, and
/// the name of an id has that id, or a master id that replaced it.
pub open spec fn tables_agree(id2name: Map<Id, Seq<u8>>, name2id: Map<Seq<u8>, Id>) -> bool {
    &&& forall|n: Seq<u8>| #[trigger]
        name2id.dom().contains(n) ==> id2name.dom().contains(name2id[n]) && id2name[name2id[n]]
            == n
    &&& forall|i: Id| #[trigger]
        id2name.dom().contains(i) ==> i.wf() && name2id.dom().contains(id2name[i]) && (
        name2id[id2name[i]] == i || (i.spec_group() == Some(Group::NonMaster)
            && name2id[id2name[i]].spec_group() == Some(Group::Master)))
}

impl MemIdMap {
    /// The name of each id.
    pub closed spec fn id2name(&self) -> Map<Id, Seq<u8>> {
        self.core.id2name()
    }

    /// The id of each name.
    pub closed spec fn name2id(&self) -> Map<Seq<u8>, Id> {
        self.core.name2id()
    }

    /// The names that have an id, in their order.
    pub closed spec fn names(&self) -> Seq<Seq<u8>> {
        self.core.names()
    }

    /// The version of the map.
    pub closed spec fn spec_version(&self) -> VerLink {
        self.map_version
    }

    /// The identifier of the map.
    pub closed spec fn spec_map_id(&self) -> Seq<char> {
        self.map_id@
    }

    /// One more than the greatest id that was given out in `group`, as
    /// a number; 0 where none was.
    pub closed spec fn cached_next(&self, group: Group) -> u64 {
        match group {
            Group::Master => self.cached_next_free_ids.0,
            Group::NonMaster => self.cached_next_free_ids.1,
        }
    }

    /// The id that is free next in `group`.
    pub open spec fn spec_next_free_id(&self, group: Group) -> Id {
        if self.cached_next(group) > group.spec_min() {
            Id(self.cached_next(group))
        } else {
            Id(group.spec_min() as u64)
        }
    }

    /// What every map satisfies: its tables agree, and every id that
    /// has a name lies below the id that is free next in its group.
    pub closed spec fn wf(&self) -> bool {
        &&& self.core.wf()
        &&& tables_agree(self.id2name(), self.name2id())
        &&& forall|i: Id| #[trigger]
            self.id2name().dom().contains(i) ==> i.0 < self.cached_next(i.spec_group().unwrap())
    }

    /// The tables of a well-formed map agree, and its ids are below those
    /// that are free.
    pub proof fn lemma_wf(&self)
        requires
            self.wf(),
        ensures
            tables_agree(self.id2name(), self.name2id()),
            forall|i: Id| #[trigger]
                self.id2name().dom().contains(i) ==> i.0 < self.spec_next_free_id(
                    i.spec_group().unwrap(),
                ).0,
    {
    }

    /// The name of the id of a name is that name.
    pub proof fn lemma_name_of_id_of_name(&self, name: Seq<u8>)
        requires
            self.wf(),
            self.name2id().dom().contains(name),
        ensures
            self.id2name().dom().contains(self.name2id()[name]),
            self.id2name()[self.name2id()[name]] == name,
    {
    }

    /// The identifier of the map numbered `number`: `mem:` and the number.
    pub open spec fn id_of_number(number: u64) -> Seq<char> {
        "mem:"@ + crate::text::decimal(number as nat)
    }

    /// A map without names and ids, with `mem:` and `number` as its
    /// identifier. Maps are told apart by their identifiers: whoever
    /// makes them gives each a number of its own.
    pub fn new(number: u64) -> (map: MemIdMap)
        ensures
            map.wf(),
            map.id2name() == Map::<Id, Seq<u8>>::empty(),
            map.name2id() == Map::<Seq<u8>, Id>::empty(),
            map.spec_version() == (VerLink { epoch: 0, generation: 0 }),
            map.spec_map_id() == Self::id_of_number(number),
            map.cached_next(Group::Master) == 0,
            map.cached_next(Group::NonMaster) == 0,
    {
        let mut map_id = String::from_str("mem:");
        push_decimal(&mut map_id, number);
        MemIdMap {
            core: CoreMemIdMap::new(),
            cached_next_free_ids: (0, 0),
            map_id,
            map_version: VerLink::new(),
        }
    }

    /// A copy of the map.
    pub fn duplicate(&self) -> (copy: MemIdMap)
        requires
            self.wf(),
        ensures
            copy.wf(),
            copy.id2name() == self.id2name(),
            copy.name2id() == self.name2id(),
            copy.names() == self.names(),
            copy.spec_version() == self.spec_version(),
            copy.spec_map_id() == self.spec_map_id(),
            copy.cached_next(Group::Master) == self.cached_next(Group::Master),
            copy.cached_next(Group::NonMaster) == self.cached_next(Group::NonMaster),
    {
        MemIdMap {
            core: self.core.duplicate(),
            cached_next_free_ids: self.cached_next_free_ids,
            map_id: self.map_id.clone(),
            map_version: self.map_version,
        }
    }

    /// The id of `name`; `VertexNotFound` exactly where it has none.
    pub fn vertex_id(&self, name: &VertexName) -> (r: Result<Id, IdMapError>)
        requires
            self.wf(),
        ensures
            r == (if self.name2id().dom().contains(name@) {
                Ok::<Id, IdMapError>(self.name2id()[name@])
            } else {
                Err::<Id, IdMapError>(IdMapError::VertexNotFound)
            }),
    {
        match self.core.lookup_vertex_id(name) {
            Some(id) => Ok(id),
            None => Err(IdMapError::VertexNotFound),
        }
    }

    /// The id of `name` where it has one in `max_group` or in a group
    /// before it.
    pub fn vertex_id_with_max_group(&self, name: &VertexName, max_group: Group) -> (r: Option<Id>)
        requires
            self.wf(),
        ensures
            r == (if self.name2id().dom().contains(name@) && (max_group == Group::NonMaster
                || self.name2id()[name@].spec_group() == Some(Group::Master)) {
                Some(self.name2id()[name@])
            } else {
                None
            }),
    {
        match self.core.lookup_vertex_id(name) {
            Some(id) => {
                proof {
                    self.lemma_name_of_id_of_name(name@);
                }
                match max_group {
                    Group::NonMaster => Some(id),
                    Group::Master => if Group::Master.contains(id) {
                        Some(id)
                    } else {
                        None
                    },
                }
            },
            None => None,
        }
    }

    /// The name of `id`; `IdNotFound` exactly where it has none.
    pub fn vertex_name(&self, id: Id) -> (r: Result<VertexName, IdMapError>)
        requires
            self.wf(),
        ensures
            match r {
                Ok(name) => self.id2name().dom().contains(id) && name@ == self.id2name()[id],
                Err(e) => e == IdMapError::IdNotFound && !self.id2name().dom().contains(id),
            },
    {
        match self.core.lookup_vertex_name(id) {
            Some(name) => Ok(name),
            None => Err(IdMapError::IdNotFound),
        }
    }

    pub fn contains_vertex_name(&self, name: &VertexName) -> (b: bool)
        requires
            self.wf(),
        ensures
            b == self.name2id().dom().contains(name@),
    {
        self.core.has_vertex_name(name)
    }

    /// For each of `ids`, whether it has a name.
    pub fn contains_vertex_id_locally(&self, ids: &[Id]) -> (r: Vec<bool>)
        requires
            self.wf(),
        ensures
            r@.len() == ids@.len(),
            forall|i: int|
                0 <= i < ids@.len() ==> r@[i] == self.id2name().dom().contains(#[trigger] ids@[i]),
    {
        let mut r: Vec<bool> = Vec::new();
        let mut i: usize = 0;
        while i < ids.len()
            invariant
                self.wf(),
                i <= ids@.len(),
                r@.len() == i,
                forall|j: int|
                    0 <= j < i ==> r@[j] == self.id2name().dom().contains(#[trigger] ids@[j]),
            decreases ids@.len() - i,
        {
            r.push(self.core.has_vertex_id(ids[i]));
            i = i + 1;
        }
        r
    }

    /// For each of `names`, whether it has an id.
    pub fn contains_vertex_name_locally(&self, names: &[VertexName]) -> (r: Vec<bool>)
        requires
            self.wf(),
        ensures
            r@.len() == names@.len(),
            forall|i: int|
                0 <= i < names@.len() ==> r@[i] == self.name2id().dom().contains(
                    (#[trigger] names@[i])@,
                ),
    {
        let mut r: Vec<bool> = Vec::new();
        let mut i: usize = 0;
        while i < names.len()
            invariant
                self.wf(),
                i <= names@.len(),
                r@.len() == i,
                forall|j: int|
                    0 <= j < i ==> r@[j] == self.name2id().dom().contains((#[trigger] names@[j])@),
            decreases names@.len() - i,
        {
            r.push(self.core.has_vertex_name(&names[i]));
            i = i + 1;
        }
        r
    }

    /// For each of `names`, its id where it has one.
    pub fn find_many_dag_ids(&self, names: &[VertexName]) -> (r: Vec<Option<Id>>)
        requires
            self.wf(),
        ensures
            r@.len() == names@.len(),
            forall|i: int|
                0 <= i < names@.len() ==> (#[trigger] r@[i]) == (if self.name2id().dom().contains(
                    names@[i]@,
                ) {
                    Some(self.name2id()[names@[i]@])
                } else {
                    None
                }),
    {
        let mut r: Vec<Option<Id>> = Vec::new();
        let mut i: usize = 0;
        while i < names.len()
            invariant
                self.wf(),
                i <= names@.len(),
                r@.len() == i,
                forall|j: int|
                    0 <= j < i ==> (#[trigger] r@[j]) == (if self.name2id().dom().contains(
                        names@[j]@,
                    ) {
                        Some(self.name2id()[names@[j]@])
                    } else {
                        None
                    }),
            decreases names@.len() - i,
        {
            r.push(self.core.lookup_vertex_id(&names[i]));
            i = i + 1;
        }
        r
    }

    /// For each of `ids`, its name where it has one.
    pub fn find_many_vertex_names(&self, ids: &[Id]) -> (r: Vec<Option<VertexName>>)
        requires
            self.wf(),
        ensures
            r@.len() == ids@.len(),
            forall|i: int|
                0 <= i < ids@.len() ==> match #[trigger] r@[i] {
                    Some(name) => self.id2name().dom().contains(ids@[i]) && name@
                        == self.id2name()[ids@[i]],
                    None => !self.id2name().dom().contains(ids@[i]),
                },
    {
        let mut r: Vec<Option<VertexName>> = Vec::new();
        let mut i: usize = 0;
        while i < ids.len()
            invariant
                self.wf(),
                i <= ids@.len(),
                r@.len() == i,
                forall|j: int|
                    0 <= j < i ==> match #[trigger] r@[j] {
                        Some(name) => self.id2name().dom().contains(ids@[j]) && name@
                            == self.id2name()[ids@[j]],
                        None => !self.id2name().dom().contains(ids@[j]),
                    },
            decreases ids@.len() - i,
        {
            r.push(self.core.lookup_vertex_name(ids[i]));
            i = i + 1;
        }
        r
    }

    pub fn map_id(&self) -> (id: &str)
        ensures
            id@ == self.spec_map_id(),
    {
        self.map_id.as_str()
    }

    pub fn map_version(&self) -> (v: VerLink)
        ensures
            v == self.spec_version(),
    {
        self.map_version
    }

    /// Why `insert` refuses to give `id` the name `name`, if it does.
    ///
    /// An id keeps its name and a name keeps its id inside a group. A
    /// name with an id of the non-master group may get one of the master
    /// group, but not the other way round.
    pub open spec fn insert_error(&self, id: Id, name: Seq<u8>) -> Option<IdMapError> {
        if id.spec_group().is_none() {
            Some(IdMapError::GroupViolation)
        } else if self.id2name().dom().contains(id) && self.id2name()[id] != name {
            Some(IdMapError::Conflict)
        } else if self.name2id().dom().contains(name) && self.name2id()[name] != id
            && self.name2id()[name].spec_group() == id.spec_group() {
            Some(IdMapError::Conflict)
        } else if self.name2id().dom().contains(name) && self.name2id()[name] != id
            && self.name2id()[name].spec_group() == Some(Group::Master) {
            Some(IdMapError::GroupViolation)
        } else if self.spec_version().generation == u64::MAX {
            Some(IdMapError::VersionExhausted)
        } else {
            None
        }
    }

    /// Gives `id` the name `name`, unless `insert_error` says why not.
    pub fn insert(&mut self, id: Id, name: &[u8]) -> (r: Result<(), IdMapError>)
        requires
            old(self).wf(),
        ensures
            final(self).wf(),
            final(self).spec_map_id() == old(self).spec_map_id(),
            match r {
                Ok(()) => old(self).insert_error(id, name@).is_none() && final(self).id2name()
                    == old(self).id2name().insert(id, name@)
                        && final(self).name2id() == old(self).name2id().insert(name@, id)
                        && final(self).spec_version() == (VerLink {
                    epoch: old(self).spec_version().epoch,
                    generation: (old(self).spec_version().generation + 1) as u64,
                })
                    && old(self).spec_version().older_than(final(self).spec_version())
                    && final(self).cached_next(id.spec_group().unwrap())
                        == (if id.0 >= old(self).cached_next(id.spec_group().unwrap()) {
                    (id.0 + 1) as u64
                } else {
                    old(self).cached_next(id.spec_group().unwrap())
                }) && (forall|g: Group|
                    Some(g) != id.spec_group()
                        ==> final(self).cached_next(g) == old(self).cached_next(g)),
                Err(e) => old(self).insert_error(id, name@) == Some(e) && final(self).id2name()
                    == old(self).id2name() && final(self).name2id() == old(self).name2id()
                    && final(self).spec_version() == old(self).spec_version()
                        && final(self).cached_next(Group::Master)
                            == old(self).cached_next(Group::Master)
                        && final(self).cached_next(Group::NonMaster)
                            == old(self).cached_next(Group::NonMaster),
            },
    {
        let group = match id.group() {
            Some(g) => g,
            None => { return Err(IdMapError::GroupViolation); },
        };
        let vertex_name = VertexName::copy_from(name);
        match self.core.lookup_vertex_name(id) {
            Some(existing) => {
                if !bytes_eq(existing.0.as_slice(), name) {
                    return Err(IdMapError::Conflict);
                }
            },
            None => {},
        }
        match self.core.lookup_vertex_id(&vertex_name) {
            Some(other) => {
                if other.0 != id.0 {
                    proof {
                        self.lemma_name_of_id_of_name(name@);
                    }
                    if group.contains(other) {
                        return Err(IdMapError::Conflict);
                    }
                    if Group::Master.contains(other) {
                        return Err(IdMapError::GroupViolation);
                    }
                }
            },
            None => {},
        }
        let version = match self.map_version.bumped() {
            Some(v) => v,
            None => { return Err(IdMapError::VersionExhausted); },
        };
        let ghost old_id2name = self.id2name();
        let ghost old_name2id = self.name2id();
        self.core.insert_vertex_id_name(id, vertex_name);
        match group {
            Group::Master => {
                if id.0 >= self.cached_next_free_ids.0 {
                    self.cached_next_free_ids.0 = id.0 + 1;
                }
            },
            Group::NonMaster => {
                if id.0 >= self.cached_next_free_ids.1 {
                    self.cached_next_free_ids.1 = id.0 + 1;
                }
            },
        }
        self.map_version = version;
        proof {
            let id2name = self.id2name();
            let name2id = self.name2id();
            assert forall|n: Seq<u8>| #[trigger] name2id.dom().contains(n) implies id2name.dom().contains(
                name2id[n],
            ) && id2name[name2id[n]] == n by {
                if n != name@ {
                    assert(old_name2id.dom().contains(n));
                }
            }
            assert forall|i: Id| #[trigger] id2name.dom().contains(i) implies i.wf()
                && name2id.dom().contains(id2name[i]) && (name2id[id2name[i]] == i || (
            i.spec_group() == Some(Group::NonMaster) && name2id[id2name[i]].spec_group() == Some(
                Group::Master,
            ))) by {
                if i != id {
                    assert(old_id2name.dom().contains(i));
                }
            }
            assert forall|i: Id| #[trigger] id2name.dom().contains(i) implies i.0 < self.cached_next(
                i.spec_group().unwrap(),
            ) by {
                if i != id {
                    assert(old_id2name.dom().contains(i));
                }
            }
        }
        Ok(())
    }

    /// The id that is free next in `group`.
    pub fn next_free_id(&self, group: Group) -> (id: Id)
        ensures
            id == self.spec_next_free_id(group),
    {
        let cached = match group {
            Group::Master => self.cached_next_free_ids.0,
            Group::NonMaster => self.cached_next_free_ids.1,
        };
        let min = group.min_id();
        if cached > min.0 {
            Id(cached)
        } else {
            min
        }
    }

    /// Removes every id of the non-master group, with the names that
    /// have such an id, and starts a new epoch of versions.
    ///
    /// Fails, and changes nothing, where the epochs are used up.
    pub fn remove_non_master(&mut self) -> (r: Result<(), IdMapError>)
        requires
            old(self).wf(),
        ensures
            final(self).wf(),
            final(self).spec_map_id() == old(self).spec_map_id(),
            final(self).cached_next(Group::Master) == old(self).cached_next(Group::Master),
            match r {
                Ok(()) => old(self).spec_version().epoch < u64::MAX && final(self).spec_version()
                    == (VerLink {
                    epoch: (old(self).spec_version().epoch + 1) as u64,
                    generation: 0,
                })
                    && old(self).spec_version().older_than(final(self).spec_version())
                    && final(self).id2name() == old(self).id2name().remove_keys(
                    Set::new(|id: Id| id.spec_group() == Some(Group::NonMaster)),
                ) && final(self).name2id() == old(self).name2id().remove_keys(
                    Set::new(
                        |n: Seq<u8>|
                            old(self).name2id().dom().contains(n)
                                && old(self).name2id()[n].spec_group() == Some(Group::NonMaster),
                    ),
                ) && final(self).spec_next_free_id(Group::NonMaster).0
                    == Group::NonMaster.spec_min(),
                Err(e) => e == IdMapError::VersionExhausted && old(self).spec_version().epoch
                    == u64::MAX
                        && final(self).id2name() == old(self).id2name()
                        && final(self).name2id() == old(self).name2id()
                        && final(self).spec_version() == old(self).spec_version()
                        && final(self).cached_next(Group::NonMaster)
                            == old(self).cached_next(Group::NonMaster),
            },
    {
        let version = match self.map_version.next_epoch() {
            Some(v) => v,
            None => { return Err(IdMapError::VersionExhausted); },
        };
        let ghost old_id2name = self.id2name();
        let ghost old_name2id = self.name2id();
        let rest = self.core.without_group(Group::NonMaster);
        self.core = rest;
        self.cached_next_free_ids.1 = 0;
        self.map_version = version;
        proof {
            let id2name = self.id2name();
            let name2id = self.name2id();
            assert forall|n: Seq<u8>| #[trigger] name2id.dom().contains(n) implies id2name.dom().contains(
                name2id[n],
            ) && id2name[name2id[n]] == n by {
                assert(old_name2id.dom().contains(n));
            }
            assert forall|i: Id| #[trigger] id2name.dom().contains(i) implies i.wf()
                && name2id.dom().contains(id2name[i]) && (name2id[id2name[i]] == i || (
            i.spec_group() == Some(Group::NonMaster) && name2id[id2name[i]].spec_group() == Some(
                Group::Master,
            ))) by {
                assert(old_id2name.dom().contains(i));
            }
            assert forall|i: Id| #[trigger] id2name.dom().contains(i) implies i.0 < self.cached_next(
                i.spec_group().unwrap(),
            ) by {
                assert(old_id2name.dom().contains(i));
            }
        }
        Ok(())
    }

    /// Whether the non-master group has to be built again: never, for a
    /// map in memory.
    pub fn need_rebuild_non_master(&self) -> (b: bool)
        ensures
            !b,
    {
        false
    }

    /// The names whose hexadecimal form starts with `hex_prefix`, in
    /// their order; no more of them than `limit`.
    pub fn vertexes_by_hex_prefix(&self, hex_prefix: &[u8], limit: usize) -> (r: Result<
        Vec<VertexName>,
        IdMapError,
    >)
        requires
            self.wf(),
        ensures
            match r {
                Ok(found) => is_hex(hex_prefix@) && names_view(found@) == first_of(
                    matching(self.names(), hex_prefix@),
                    prefix_limit(limit),
                ),
                Err(e) => e == IdMapError::InvalidHex && !is_hex(hex_prefix@),
            },
    {
        self.core.lookup_vertexes_by_hex_prefix(hex_prefix, limit)
    }
}

/// After the non-master group was removed, no id of that group has a
/// name and no name has an id of that group.
pub proof fn lemma_remove_non_master_leaves_master(before: MemIdMap, after: MemIdMap)
    requires
        after.id2name() == before.id2name().remove_keys(
            Set::new(|id: Id| id.spec_group() == Some(Group::NonMaster)),
        ),
        after.name2id() == before.name2id().remove_keys(
            Set::new(
                |n: Seq<u8>|
                    before.name2id().dom().contains(n) && before.name2id()[n].spec_group() == Some(
                        Group::NonMaster,
                    ),
            ),
        ),
    ensures
        forall|id: Id| #[trigger]
            after.id2name().dom().contains(id) ==> id.spec_group() != Some(Group::NonMaster),
        forall|n: Seq<u8>| #[trigger]
            after.name2id().dom().contains(n) ==> after.name2id()[n].spec_group() != Some(
                Group::NonMaster,
            ),
        forall|id: Id|
            id.spec_group() == Some(Group::Master)
                ==> (#[trigger] after.id2name().dom().contains(id))
                == before.id2name().dom().contains(id) && (before.id2name().dom().contains(id)
                ==> after.id2name()[id] == before.id2name()[id]),
{
}

} // verus!
